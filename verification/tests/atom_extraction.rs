use rure::char_class_expansion;
use rure::connection;
use rure::extract;
use rure::extract_lowercased;
use rure::group_multiple_selection;
use rure::ExtractError;
use rure::Options;

fn strings(texts: &[&str]) -> Vec<String> {
    texts.iter().map(|t| t.to_string()).collect()
}

#[test]
fn group_at_end_emits_absorbed_branches() {
    // "abc" occurs inside "abc123", and "abc123" in turn inside
    // "abc1234": absorption drops both shorter branches.
    let atoms = extract("(abc123|abc|ghi789|abc1234)", 3).unwrap();
    assert_eq!(atoms, strings(&["ghi789", "abc1234"]));
}

#[test]
fn group_before_dot_emits_and_consumes_the_dot() {
    let atoms = extract("(foo|bar).x", 3).unwrap();
    assert_eq!(atoms, strings(&["foo", "bar"]));
}

#[test]
fn group_before_brace_emits() {
    let atoms = extract("(foo|bar){2}", 3).unwrap();
    assert_eq!(atoms, strings(&["foo", "bar"]));
}

#[test]
fn group_in_other_positions_is_dropped() {
    let atoms = extract("(foo|bar)x", 3).unwrap();
    assert_eq!(atoms, Vec::<String>::new());
}

#[test]
fn group_branches_below_minimum_are_dropped() {
    let atoms = extract("(ab|xyz)", 3).unwrap();
    assert_eq!(atoms, strings(&["xyz"]));
}

#[test]
fn literals_flush_at_dots_and_end() {
    let atoms = extract("abc.ab.xyz", 2).unwrap();
    // "ab" is absorbed by the already collected "abc".
    assert_eq!(atoms, strings(&["abc", "xyz"]));
}

#[test]
fn longer_atom_replaces_the_shorter_it_contains() {
    let atoms = extract("ab.abc", 2).unwrap();
    assert_eq!(atoms, strings(&["abc"]));
}

#[test]
fn equal_atoms_are_kept_once() {
    let atoms = extract("abc.abc", 3).unwrap();
    assert_eq!(atoms, strings(&["abc"]));
}

#[test]
fn absorption_spans_group_and_literal_atoms() {
    // The literal "foobar" collected later covers both group atoms.
    let atoms = extract("(foo|bar).foobar", 3).unwrap();
    assert_eq!(atoms, strings(&["foobar"]));
}

#[test]
fn class_closing_the_pattern_emits_cross_products() {
    let atoms = extract("x[ab]", 2).unwrap();
    assert_eq!(atoms, strings(&["xa", "xb"]));
}

#[test]
fn class_range_expands() {
    let atoms = extract("[a-c]", 1).unwrap();
    assert_eq!(atoms, strings(&["a", "b", "c"]));
}

#[test]
fn cross_products_flush_at_a_dot_with_literal_suffix() {
    let atoms = extract("x[ab]y.", 1).unwrap();
    assert_eq!(atoms, strings(&["xay", "xby"]));
}

#[test]
fn repeated_class_flushes_long_enough_literal() {
    let atoms = extract("abc[xy]+", 3).unwrap();
    assert_eq!(atoms, strings(&["abc"]));
}

#[test]
fn repeated_class_keeps_short_literal_pending() {
    let atoms = extract("ab[xy]+", 3).unwrap();
    assert_eq!(atoms, Vec::<String>::new());
}

#[test]
fn escape_flushes_literal_and_drops_escaped_char() {
    let atoms = extract("abcd\\nxyz", 3).unwrap();
    assert_eq!(atoms, strings(&["abcd", "xyz"]));
}

#[test]
fn escape_keeps_short_literal_pending() {
    let atoms = extract("ab\\nxy", 3).unwrap();
    assert_eq!(atoms, strings(&["abxy"]));
}

#[test]
fn quantifiers_are_skipped() {
    let atoms = extract("ab*cd+ef", 6).unwrap();
    assert_eq!(atoms, strings(&["abcdef"]));
}

#[test]
fn brace_spans_are_skipped_without_flush() {
    let atoms = extract("ab{2,3}cd", 4).unwrap();
    assert_eq!(atoms, strings(&["abcd"]));
}

#[test]
fn patterns_are_lowercased_before_scanning() {
    let atoms = extract("ABC.", 2).unwrap();
    assert_eq!(atoms, strings(&["abc"]));
}

#[test]
fn unterminated_spans_are_malformed() {
    assert_eq!(extract("(abc", 3), Err(ExtractError::MalformedPattern));
    assert_eq!(extract("[abc", 1), Err(ExtractError::MalformedPattern));
    assert_eq!(extract("a{2", 1), Err(ExtractError::MalformedPattern));
}

#[test]
fn empty_pattern_and_zero_minimum() {
    assert_eq!(extract("", 0).unwrap(), Vec::<String>::new());
    // A dot flushes the empty pending literal when the minimum is zero.
    assert_eq!(extract(".", 0).unwrap(), strings(&[""]));
}

#[test]
fn every_atom_is_at_least_the_minimum_length() {
    for (pattern, min) in [
        ("(abc123|abc|ghi789|abc1234)", 3usize),
        ("a.bc.def.ghij", 2),
        ("x[ab]y.z[0-3]", 1),
        ("ab*cd{2}ef\\nx", 2),
    ] {
        for atom in extract(pattern, min).unwrap() {
            assert!(atom.chars().count() >= min);
        }
    }
}

#[test]
fn no_atom_is_a_substring_of_another() {
    for (pattern, min) in [
        ("(abc123|abc|ghi789|abc1234)", 3usize),
        ("ab.abc.b.xyz", 1),
        ("x[ab].xa.", 1),
    ] {
        let atoms = extract(pattern, min).unwrap();
        for (i, a) in atoms.iter().enumerate() {
            for (j, b) in atoms.iter().enumerate() {
                if i != j {
                    assert!(!b.contains(a.as_str()), "{a} absorbed by {b}");
                }
            }
        }
    }
}

#[test]
fn extract_lowercased_scans_without_folding() {
    let atoms = extract_lowercased("ABC.", 2).unwrap();
    assert_eq!(atoms, strings(&["ABC"]));
}

#[test]
fn group_multiple_selection_sorts_and_absorbs() {
    let atoms = group_multiple_selection("(abc123|abc|ghi789|abc1234)", 3);
    assert_eq!(atoms, strings(&["ghi789", "abc1234"]));
    let atoms = group_multiple_selection("(a|bb|ccc)", 2);
    assert_eq!(atoms, strings(&["bb", "ccc"]));
}

#[test]
fn char_class_expansion_enumerates_and_ranges() {
    assert_eq!(char_class_expansion("[abc]"), vec!['a', 'b', 'c']);
    assert_eq!(char_class_expansion("[a-c]"), vec!['a', 'b', 'c']);
    assert_eq!(char_class_expansion("[5-8]"), vec!['5', '6', '7', '8']);
    assert_eq!(char_class_expansion("[c-a]"), Vec::<char>::new());
    assert_eq!(char_class_expansion("[-]"), Vec::<char>::new());
}

#[test]
fn connection_combines_prefix_cross_and_class() {
    assert_eq!(connection("x", vec![], vec!['a', 'b']), strings(&["xa", "xb"]));
    assert_eq!(connection("", vec![], vec!['a']), strings(&["a"]));
    assert_eq!(
        connection("", strings(&["p", "q"]), vec!['1', '2']),
        strings(&["p1", "p2", "q1", "q2"])
    );
}

#[test]
fn default_options_carry_the_engine_limits() {
    let options = Options::default();
    assert_eq!(options.size_limit, 10 * (1 << 20));
    assert_eq!(options.dfa_size_limit, 2 * (1 << 20));
}
