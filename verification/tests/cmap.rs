use pdf_core::pdf::cmap::parse;

#[test]
fn a_bfchar_section_maps_each_code_it_names() {
    let map = parse(
        b"2 beginbfchar\n<0003> <0020>\n<0024> <0041>\nendbfchar\n",
    );
    assert_eq!(map.get(&0x0003).map(String::as_str), Some(" "));
    assert_eq!(map.get(&0x0024).map(String::as_str), Some("A"));
    assert_eq!(map.len(), 2);
}

#[test]
fn a_bfrange_counts_up_from_its_start() {
    let map = parse(b"1 beginbfrange\n<0024> <0026> <0041>\nendbfrange\n");
    assert_eq!(map.get(&0x0024).map(String::as_str), Some("A"));
    assert_eq!(map.get(&0x0025).map(String::as_str), Some("B"));
    assert_eq!(map.get(&0x0026).map(String::as_str), Some("C"));
    assert_eq!(map.len(), 3);
}

#[test]
fn a_bfrange_with_a_list_takes_one_entry_per_code() {
    let map = parse(b"1 beginbfrange\n<0028> <002A> [<0058> <0059> <005A>]\nendbfrange\n");
    assert_eq!(map.get(&0x0028).map(String::as_str), Some("X"));
    assert_eq!(map.get(&0x0029).map(String::as_str), Some("Y"));
    assert_eq!(map.get(&0x002A).map(String::as_str), Some("Z"));
}

// **The case this module exists for.** One code, two characters — so a
// character index and a code index stop being the same number.
#[test]
fn a_ligature_maps_one_code_to_several_characters() {
    let map = parse(b"1 beginbfchar\n<00FB> <00660069>\nendbfchar\n");
    assert_eq!(map.get(&0x00FB).map(String::as_str), Some("fi"));
}

// And the other direction: a soft hyphen, which PDFium leaves out of the
// text it extracts, so the code accounts for no character at all.
#[test]
fn a_soft_hyphen_is_read_as_the_character_it_is() {
    let map = parse(b"1 beginbfchar\n<0011> <00AD>\nendbfchar\n");
    assert_eq!(map.get(&0x0011).map(String::as_str), Some("\u{ad}"));
}

#[test]
fn both_kinds_of_section_can_appear_in_one_map() {
    let map = parse(
        b"/CIDInit /ProcSet findresource begin\n\
          1 begincodespacerange\n<0000> <FFFF>\nendcodespacerange\n\
          1 beginbfchar\n<0003> <0020>\nendbfchar\n\
          1 beginbfrange\n<0024> <0025> <0041>\nendbfrange\n\
          endcmap\n",
    );
    assert_eq!(map.get(&0x0003).map(String::as_str), Some(" "));
    assert_eq!(map.get(&0x0024).map(String::as_str), Some("A"));
    assert_eq!(map.get(&0x0025).map(String::as_str), Some("B"));
}

// A code space range must not be read as a mapping — it says how wide a
// code is, not what it spells.
#[test]
fn a_codespace_range_maps_nothing() {
    let map = parse(b"1 begincodespacerange\n<0000> <FFFF>\nendcodespacerange\n");
    assert!(map.is_empty());
}

#[test]
fn nonsense_stops_the_read_rather_than_derailing_it() {
    // What came before the damage is still true.
    let map = parse(b"1 beginbfchar\n<0003> <0020>\nendbfchar\n<unclosed");
    assert_eq!(map.get(&0x0003).map(String::as_str), Some(" "));
}

#[test]
fn an_empty_map_is_not_an_error() {
    assert!(parse(b"").is_empty());
    assert!(parse(b"begincmap endcmap").is_empty());
}

#[test]
fn a_range_stops_where_its_unit_would_pass_the_top() {
    let map = parse(b"1 beginbfrange\n<0001> <0004> <FFFE>\nendbfrange\n");
    // The count stops once the unit would pass 0xFFFF.
    assert_eq!(map.len(), 2);
    assert_eq!(map.get(&2).map(String::as_str), Some("\u{FFFF}"));
    assert!(map.get(&3).is_none());
    let map = parse(b"1 beginbfrange\n<0001> <0003> <00410042>\nendbfrange\n");
    assert_eq!(map.get(&1).map(String::as_str), Some("AB"));
    assert_eq!(map.get(&3).map(String::as_str), Some("AD"));
}

#[test]
fn a_surrogate_pair_is_one_character_and_a_lone_one_is_nothing() {
    let map = parse(b"2 beginbfchar\n<0001> <D83DDE00>\n<0002> <D83D>\nendbfchar\n");
    assert_eq!(map.get(&1).map(String::as_str), Some("\u{1F600}"));
    assert!(map.get(&2).is_none());
}

#[test]
fn a_list_longer_than_its_range_stops_at_the_high_code() {
    let map = parse(b"1 beginbfrange\n<0028> <0029> [<0058> <0059> <005A>]\nendbfrange\n");
    assert_eq!(map.len(), 2);
    assert_eq!(map.get(&0x28).map(String::as_str), Some("X"));
    assert_eq!(map.get(&0x29).map(String::as_str), Some("Y"));
    assert!(map.get(&0x2A).is_none());
}
