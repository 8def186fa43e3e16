use kvlines::deserializer;
use kvlines::encode::pair_line;
use kvlines::parse;
use kvlines::serialize;
use kvlines::serializer;
use kvlines::to_string;

fn owned_pairs(pairs: &[(&str, &str)]) -> Vec<(String, String)> {
    pairs.iter().map(|(k, v)| (k.to_string(), v.to_string())).collect()
}

fn owned_lines(lines: &[&str]) -> Vec<String> {
    lines.iter().map(|l| l.to_string()).collect()
}

#[test]
fn test_serialize_basic() {
    let ser_string = to_string(owned_pairs(&[("foo", "bar"), ("baz", "123")]));

    let expected = "foo: bar\nbaz: 123\n";

    assert_eq!(ser_string, expected);
}

#[test]
fn test_serialize_basic2() {
    let ser_string = serialize(
        owned_pairs(&[("foo", "bar"), ("baz", "123")]),
        owned_lines(&["extra: lines", "and stuff"]),
    );

    let expected = "foo: bar\nbaz: 123\nextra: lines\nand stuff\n";

    assert_eq!(ser_string, expected);
}

#[test]
fn test_serialize_data() {
    let ser_string = serializer()
        .separator("=")
        .newline("\r\n")
        .pairs(owned_pairs(&[("foo", "bar"), ("baz", "123")]))
        .extra_lines(owned_lines(&["extra=lines", "and stuff"]))
        .serialize();

    let expected = "foo=bar\r\nbaz=123\r\nextra=lines\r\nand stuff\r\n";

    assert_eq!(ser_string, expected);
}

#[test]
fn test_deserialize_basic() {
    let source = "foo: bar\nbaz: 123\nextra: lines\nand stuff\n";

    let (pairs, extra_lines) = parse(owned_lines(&["foo", "baz"]), source);

    assert_eq!(pairs, owned_pairs(&[("foo", "bar"), ("baz", "123")]));
    assert_eq!(extra_lines, owned_lines(&["extra: lines", "and stuff"]));
}

#[test]
fn test_deserialize_data() {
    let source = "foo=bar\r\nbaz=123\r\nextra=lines\r\nand stuff\r\n";

    let data = deserializer()
        .separator("=")
        .newline("\r\n")
        .keys(owned_lines(&["foo", "baz"]))
        .deserialize(source);

    let pairs = data.pairs;
    let extra_lines = data.extra_lines;

    assert_eq!(pairs, owned_pairs(&[("foo", "bar"), ("baz", "123")]));
    assert_eq!(extra_lines, owned_lines(&["extra=lines", "and stuff"]));
}

#[test]
fn pair_line_renders_one_line() {
    assert_eq!(pair_line("foo", "bar", ": ", "\n"), "foo: bar\n");
    assert_eq!(pair_line("baz", "123", "=", "\r\n"), "baz=123\r\n");
}

#[test]
fn round_trip_recovers_pairs() {
    let pairs = owned_pairs(&[("foo", "bar"), ("baz", "123"), ("foo", "again")]);
    let text = to_string(pairs.clone());
    let (decoded, extras) = parse(owned_lines(&["foo", "baz"]), &text);
    assert_eq!(decoded, pairs);
    assert_eq!(extras, Vec::<String>::new());
}

#[test]
fn partition_accounts_for_every_line() {
    let source = "foo: 1\nnoise\nbaz: 2\nmore noise\ntrailing";
    let (pairs, extras) = parse(owned_lines(&["foo", "baz"]), source);
    assert_eq!(pairs.len() + extras.len(), source.lines().count());
    assert_eq!(pairs.len(), 2);
    assert_eq!(extras, owned_lines(&["noise", "more noise", "trailing"]));
}

#[test]
fn first_separator_occurrence_wins() {
    let (pairs, extras) = parse(owned_lines(&["foo"]), "foo: bar: baz\n");
    assert_eq!(pairs, owned_pairs(&[("foo", "bar: baz")]));
    assert_eq!(extras, Vec::<String>::new());
}

#[test]
fn unlisted_key_becomes_extra_line() {
    let (pairs, extras) = parse(owned_lines(&["foo"]), "nope: value\nfoo: ok\n");
    assert_eq!(pairs, owned_pairs(&[("foo", "ok")]));
    assert_eq!(extras, owned_lines(&["nope: value"]));
}

#[test]
fn order_is_preserved_in_both_outputs() {
    let source = "b\nfoo: 1\na\nfoo: 2\nc\n";
    let (pairs, extras) = parse(owned_lines(&["foo"]), source);
    assert_eq!(pairs, owned_pairs(&[("foo", "1"), ("foo", "2")]));
    assert_eq!(extras, owned_lines(&["b", "a", "c"]));
}

#[test]
fn empty_input_yields_empty_outputs() {
    let (pairs, extras) = parse(owned_lines(&["foo", "baz"]), "");
    assert_eq!(pairs, Vec::<(String, String)>::new());
    assert_eq!(extras, Vec::<String>::new());
}

#[test]
fn custom_config_splits_like_default() {
    let data = deserializer()
        .separator("=")
        .newline("\r\n")
        .keys(owned_lines(&["foo", "baz"]))
        .deserialize("foo=bar\r\nbaz=123\r\nextra=lines\r\nand stuff\r\n");
    assert_eq!(data.pairs, owned_pairs(&[("foo", "bar"), ("baz", "123")]));
    assert_eq!(data.extra_lines, owned_lines(&["extra=lines", "and stuff"]));
}

#[test]
fn final_line_without_terminator_still_counts() {
    let (pairs, extras) = parse(owned_lines(&["foo"]), "foo: bar");
    assert_eq!(pairs, owned_pairs(&[("foo", "bar")]));
    assert_eq!(extras, Vec::<String>::new());
}

#[test]
fn lone_carriage_return_stays_in_the_line() {
    let (pairs, extras) = parse(owned_lines(&["foo"]), "a\rb\nfoo: x\r\n");
    assert_eq!(pairs, owned_pairs(&[("foo", "x")]));
    assert_eq!(extras, owned_lines(&["a\rb"]));
}

#[test]
fn empty_separator_is_degenerate_but_defined() {
    let encoded = serializer()
        .separator("")
        .pairs(owned_pairs(&[("foo", "bar")]))
        .serialize();
    assert_eq!(encoded, "foobar\n");

    let data = deserializer()
        .separator("")
        .keys(owned_lines(&[""]))
        .deserialize("abc\n");
    assert_eq!(data.pairs, owned_pairs(&[("", "abc")]));
    assert_eq!(data.extra_lines, Vec::<String>::new());
}

#[test]
fn duplicate_keys_are_preserved_positionally() {
    let text = to_string(owned_pairs(&[("k", "1"), ("k", "2")]));
    assert_eq!(text, "k: 1\nk: 2\n");
    let (pairs, _) = parse(owned_lines(&["k"]), &text);
    assert_eq!(pairs, owned_pairs(&[("k", "1"), ("k", "2")]));
}

#[test]
fn duplicate_allow_list_entries_have_no_effect() {
    let source = "foo: bar\nother\n";
    let once = parse(owned_lines(&["foo"]), source);
    let twice = parse(owned_lines(&["foo", "foo"]), source);
    assert_eq!(once, twice);
}

#[test]
fn pairs_hashmap_is_last_write_wins() {
    let data = deserializer()
        .keys(owned_lines(&["foo", "baz"]))
        .deserialize("foo: a\nbaz: b\nfoo: c\n");
    let map = data.pairs_hashmap();
    assert_eq!(map.len(), 2);
    assert_eq!(map.get("foo"), Some(&"c".to_string()));
    assert_eq!(map.get("baz"), Some(&"b".to_string()));
    assert_eq!(map.get("missing"), None);

    let owned = data.pairs_hashmap_owned();
    assert_eq!(owned.len(), 2);
    assert_eq!(owned.get("foo"), Some(&"c".to_string()));
}

#[test]
fn extra_lines_vec_copies_in_order() {
    let data = deserializer()
        .keys(owned_lines(&["foo"]))
        .deserialize("x\nfoo: 1\ny\n");
    assert_eq!(data.extra_lines_vec(), owned_lines(&["x", "y"]));
    assert_eq!(data.extra_lines_vec_owned(), owned_lines(&["x", "y"]));
}

#[test]
fn no_escaping_means_separator_in_key_breaks_round_trip() {
    let text = serializer()
        .separator("::")
        .pairs(owned_pairs(&[("a:", "v")]))
        .serialize();
    assert_eq!(text, "a:::v\n");
    let data = deserializer()
        .separator("::")
        .keys(owned_lines(&["a:"]))
        .deserialize(&text);
    assert_eq!(data.pairs, Vec::<(String, String)>::new());
    assert_eq!(data.extra_lines, owned_lines(&["a:::v"]));
}
