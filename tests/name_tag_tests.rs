use nametag::{NameTag, NameTagError};
use std::convert::TryFrom;

fn text(name_tag: NameTag) -> String {
    String::try_from(name_tag).unwrap()
}

// Basic reading
#[test]
fn test_round_trip_no_tags() {
    let name_tag = NameTag::new(b"somefile.txt");
    assert_eq!("somefile.txt", &String::try_from(name_tag).unwrap());

    let name_tag: NameTag = "somefile.txt".parse().unwrap();
    assert_eq!("somefile.txt", &String::try_from(name_tag).unwrap());
}

#[test]
fn test_round_trip_maintain_tags() {
    let name_tag: NameTag = "somefile[tagB tagA].txt".parse().unwrap();
    assert_eq!(
        "somefile[tagA tagB].txt",
        &String::try_from(name_tag).unwrap()
    );
}

// An empty segment holds no tags, and a name without tags is written
// without brackets.
#[test]
fn test_round_trip_empty_tags() {
    let name_tag: NameTag = "somefile[].txt".parse().unwrap();
    assert_eq!("somefile.txt", &String::try_from(name_tag).unwrap());
}

// Functionality
#[test]
fn test_get_tags() {
    let name_tag: NameTag = "somefile[tagB tagA].txt".parse().unwrap();
    assert_eq!(vec![b"tagA".to_vec(), b"tagB".to_vec()], name_tag.get_tags());
}

#[test]
fn test_add_tags() {
    let mut name_tag = NameTag::new(b"somefile.txt");
    name_tag.add_tag(b"tagB");
    name_tag.add_tag(b"tagA");
    assert_eq!(vec![b"tagA".to_vec(), b"tagB".to_vec()], name_tag.get_tags());
}

#[test]
fn test_round_trip_add_tag() {
    let mut name_tag = NameTag::new(b"somefile[tagB].txt");
    name_tag.add_tag(b"tagA");
    assert_eq!(
        "somefile[tagA tagB].txt",
        &String::try_from(name_tag).unwrap()
    );
}

#[test]
fn test_round_trip_remove_tag() {
    let mut name_tag = NameTag::new(b"somefile[tagB tagA].txt");
    name_tag.remove_tag(b"tagA");
    assert_eq!("somefile[tagB].txt", &String::try_from(name_tag).unwrap());
}

#[test]
fn test_round_trip_remove_absent_tag() {
    let mut name_tag = NameTag::new(b"somefile[tagB tagA].txt");
    name_tag.remove_tag(b"tagC");
    assert_eq!(
        "somefile[tagA tagB].txt",
        &String::try_from(name_tag).unwrap()
    );
}

#[test]
fn test_round_trip_clear_tags() {
    let mut name_tag = NameTag::new(b"somefile[tagB tagA].txt");
    name_tag.clear_tags();
    assert_eq!("somefile.txt", &String::try_from(name_tag).unwrap());
}

// Edgy Cases
#[test]
fn test_round_trip_nested_braces() {
    let name_tag: NameTag = "somefile[nottag [tagB tagA]].txt".parse().unwrap();
    assert_eq!(
        "somefile[nottag tagA tagB].txt",
        &String::try_from(name_tag).unwrap()
    );
}

#[test]
fn test_round_trip_unmatched_braces() {
    let name_tag: NameTag = "somefile[tagB tagA.txt".parse().unwrap();
    assert_eq!(
        "somefile[tagB tagA.txt",
        &String::try_from(name_tag).unwrap()
    );
}

#[test]
fn test_round_trip_lota_spaces() {
    let name_tag: NameTag = "somefile[   tagB    tagA  ].txt".parse().unwrap();
    assert_eq!(
        "somefile[tagA tagB].txt",
        &String::try_from(name_tag).unwrap()
    );
}

#[test]
fn test_round_trip_tags_in_front() {
    let name_tag: NameTag = "[tagB tagA]somefile.txt".parse().unwrap();
    assert_eq!(
        "[tagA tagB]somefile.txt",
        &String::try_from(name_tag).unwrap()
    );
}

#[test]
fn untagged_names_round_trip() {
    for name in ["README", "a.b.c", "", ".hidden", "x]y.txt", "x]y[z"] {
        let name_tag = NameTag::new(name.as_bytes());
        assert_eq!(name.as_bytes().to_vec(), name_tag.into_bytes());
        assert_eq!(name, text(name_tag));
    }
}

#[test]
fn add_hello_goes_before_extension() {
    let mut name_tag = NameTag::new(b"somefile.txt");
    name_tag.add_tag(b"hello");
    assert_eq!("somefile[hello].txt", text(name_tag));
}

#[test]
fn add_goes_before_first_period() {
    let mut name_tag = NameTag::new(b"archive.tar.gz");
    name_tag.add_tag(b"old");
    assert_eq!("archive[old].tar.gz", text(name_tag));
}

#[test]
fn add_goes_at_end_without_period() {
    let mut name_tag = NameTag::new(b"README");
    name_tag.add_tag(b"doc");
    assert_eq!("README[doc]", text(name_tag));
}

#[test]
fn add_twice_same_as_once() {
    let mut once = NameTag::new(b"f.txt");
    once.add_tag(b"x");
    let mut twice = NameTag::new(b"f.txt");
    twice.add_tag(b"x");
    twice.add_tag(b"x");
    assert_eq!(once.get_tags(), twice.get_tags());
    assert_eq!(vec![b"x".to_vec()], twice.get_tags());
    assert_eq!("f[x].txt", text(twice));
}

#[test]
fn remove_absent_changes_nothing() {
    let mut name_tag = NameTag::new(b"f[b a].txt");
    let before = name_tag.get_tags();
    name_tag.remove_tag(b"zzz");
    assert_eq!(before, name_tag.get_tags());
}

#[test]
fn tags_sorted_whatever_the_order_of_adding() {
    let mut first = NameTag::new(b"f");
    for t in [&b"delta"[..], b"alpha", b"charlie", b"bravo", b"alphabet", b"Zulu"] {
        first.add_tag(t);
    }
    let mut second = NameTag::new(b"f");
    for t in [&b"Zulu"[..], b"bravo", b"alphabet", b"delta", b"alpha", b"charlie"] {
        second.add_tag(t);
    }
    let expected: Vec<Vec<u8>> = vec![
        b"Zulu".to_vec(),
        b"alpha".to_vec(),
        b"alphabet".to_vec(),
        b"bravo".to_vec(),
        b"charlie".to_vec(),
        b"delta".to_vec(),
    ];
    assert_eq!(expected, first.get_tags());
    assert_eq!(expected, second.get_tags());
}

#[test]
fn removing_every_tag_drops_the_brackets() {
    let mut name_tag = NameTag::new(b"name[a].txt");
    name_tag.remove_tag(b"a");
    assert!(name_tag.get_tags().is_empty());
    assert_eq!("name.txt", text(name_tag));
}

#[test]
fn empty_pair_in_front_collapses() {
    let name_tag = NameTag::new(b"[]name");
    assert_eq!("name", text(name_tag));
}

#[test]
fn unclosed_nested_bracket_kept() {
    let name_tag = NameTag::new(b"x[a[b].txt");
    assert!(name_tag.get_tags().is_empty());
    assert_eq!("x[a[b].txt", text(name_tag));
}

#[test]
fn segment_ends_at_first_balancing_bracket() {
    let name_tag = NameTag::new(b"a[c b]mid[d].txt");
    assert_eq!(vec![b"b".to_vec(), b"c".to_vec()], name_tag.get_tags());
    assert_eq!("a[b c]mid[d].txt", text(name_tag));
}

#[test]
fn commas_and_whitespace_separate_tags() {
    let name_tag = NameTag::new(b"f[x,y , z\tw\nv,,].txt");
    assert_eq!("f[v w x y z].txt", text(name_tag));
}

#[test]
fn duplicate_tags_read_once() {
    let name_tag = NameTag::new(b"f[a b a].txt");
    assert_eq!(vec![b"a".to_vec(), b"b".to_vec()], name_tag.get_tags());
}

#[test]
fn empty_tag_not_added() {
    let mut name_tag = NameTag::new(b"f.txt");
    name_tag.add_tag(b"");
    assert!(name_tag.get_tags().is_empty());
    assert_eq!("f.txt", text(name_tag));
}

#[test]
fn clear_then_add_keeps_the_parts() {
    let mut name_tag = NameTag::new(b"pre[b a]post.txt");
    name_tag.clear_tags();
    name_tag.add_tag(b"c");
    assert_eq!("pre[c]post.txt", text(name_tag));
}

#[test]
fn serialization_can_repeat() {
    let mut name_tag = NameTag::new(b"f[b].txt");
    assert_eq!(b"f[b].txt".to_vec(), name_tag.into_bytes());
    name_tag.add_tag(b"a");
    assert_eq!(b"f[a b].txt".to_vec(), name_tag.into_bytes());
    assert_eq!(Ok("f[a b].txt".to_string()), name_tag.try_into_string());
}

#[test]
fn non_utf8_bytes_kept_as_bytes() {
    let mut name_tag = NameTag::new(b"f\xff[b].txt");
    name_tag.add_tag(b"\xfe");
    assert_eq!(b"f\xff[b \xfe].txt".to_vec(), name_tag.into_bytes());
    assert_eq!(Err(NameTagError::InvalidEncoding), name_tag.try_into_string());
    assert_eq!(Err(NameTagError::InvalidEncoding), String::try_from(name_tag));
}

#[test]
fn utf8_text_decoded() {
    let mut name_tag: NameTag = "caf\u{e9}.txt".parse().unwrap();
    name_tag.add_tag("\u{fc}ber".as_bytes());
    assert_eq!("caf\u{e9}[\u{fc}ber].txt", text(name_tag));
}

#[test]
fn into_vec_matches_bytes() {
    let name_tag = NameTag::new(b"f[b a]");
    let bytes: Vec<u8> = name_tag.into();
    assert_eq!(b"f[a b]".to_vec(), bytes);
}
