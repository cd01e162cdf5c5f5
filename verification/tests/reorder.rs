use hls_reorder::error::ReorderError;
use hls_reorder::grouping::group_variants;
use hls_reorder::reorder::{reassemble, reorder};
use hls_reorder::sorting::sort_descending;
use hls_reorder::variant::{payloads, Variant};

fn regular(name: &'static str, audio: &str, bandwidth: &str) -> Variant<&'static str> {
    Variant {
        is_i_frame: false,
        audio: Some(audio.to_string()),
        bandwidth: bandwidth.to_string(),
        payload: name,
    }
}

fn iframe(name: &'static str, bandwidth: &str) -> Variant<&'static str> {
    Variant { is_i_frame: true, audio: None, bandwidth: bandwidth.to_string(), payload: name }
}

fn names(r: Result<Vec<Variant<&'static str>>, ReorderError>) -> Vec<&'static str> {
    payloads(r.expect("reordering failed"))
}

#[test]
fn groups_by_audio_then_bandwidth_then_iframes() {
    let input = vec![
        regular("A", "aac", "500000"),
        regular("B", "aac", "900000"),
        regular("C", "ac3", "700000"),
        iframe("D", "100000"),
    ];
    assert_eq!(names(reorder(input)), vec!["B", "A", "C", "D"]);
}

#[test]
fn keeps_every_variant_unchanged() {
    let input = vec![
        iframe("i1", "30"),
        regular("x", "zz", "10"),
        regular("y", "aa", "20"),
        iframe("i2", "40"),
        regular("z", "zz", "30"),
        regular("x", "zz", "10"),
    ];
    let output = reorder(input.clone()).unwrap();
    assert_eq!(output.len(), input.len());
    for v in &input {
        let before = input.iter().filter(|w| *w == v).count();
        let after = output.iter().filter(|w| *w == v).count();
        assert_eq!(before, after);
    }
    assert_eq!(payloads(output), vec!["y", "z", "x", "x", "i2", "i1"]);
}

#[test]
fn iframes_come_last_and_groups_stand_together() {
    let input = vec![
        iframe("i", "999999"),
        regular("b1", "b", "1"),
        regular("a1", "a", "1"),
        regular("b2", "b", "2"),
        regular("a2", "a", "2"),
    ];
    assert_eq!(names(reorder(input)), vec!["a2", "a1", "b2", "b1", "i"]);
}

#[test]
fn groups_stand_in_lexicographic_order() {
    let input = vec![
        regular("lower", "stereo", "1"),
        regular("upper", "Stereo", "1"),
        regular("prefix", "ste", "1"),
        regular("digit", "5.1", "1"),
        regular("accent", "stéréo", "1"),
    ];
    assert_eq!(names(reorder(input)), vec!["digit", "upper", "prefix", "lower", "accent"]);
}

#[test]
fn bandwidth_is_compared_as_a_number() {
    let input = vec![
        regular("nine", "a", "9"),
        regular("ten", "a", "10"),
        regular("padded", "a", "0100"),
        regular("plus", "a", "+11"),
    ];
    assert_eq!(names(reorder(input)), vec!["padded", "plus", "ten", "nine"]);
}

#[test]
fn equal_bandwidths_come_out_in_reverse_input_order() {
    let input = vec![
        regular("first", "a", "5"),
        regular("second", "a", "5"),
        regular("high", "a", "7"),
        regular("third", "a", "5"),
        iframe("i-first", "1"),
        iframe("i-second", "1"),
    ];
    assert_eq!(
        names(reorder(input)),
        vec!["high", "third", "second", "first", "i-second", "i-first"]
    );
}

#[test]
fn reordering_again_changes_nothing_without_ties() {
    let input = vec![
        regular("A", "aac", "500000"),
        iframe("D", "100000"),
        regular("C", "ac3", "700000"),
        regular("B", "aac", "900000"),
        iframe("E", "200000"),
    ];
    let once = reorder(input).unwrap();
    let twice = reorder(once.clone()).unwrap();
    assert_eq!(once, twice);
    assert_eq!(payloads(twice), vec!["B", "A", "C", "E", "D"]);
}

#[test]
fn reordering_again_turns_ties_round() {
    let input = vec![regular("first", "a", "5"), regular("second", "a", "5")];
    let once = reorder(input.clone()).unwrap();
    assert_eq!(payloads(once.clone()), vec!["second", "first"]);
    let twice = reorder(once.clone()).unwrap();
    assert_eq!(twice, input);
    let thrice = reorder(twice).unwrap();
    assert_eq!(thrice, once);
}

#[test]
fn reordering_again_changes_nothing_where_tied_variants_are_equal() {
    let input = vec![regular("same", "a", "5"), regular("same", "a", "5"), regular("low", "a", "1")];
    let once = reorder(input).unwrap();
    let twice = reorder(once.clone()).unwrap();
    assert_eq!(once, twice);
}

#[test]
fn regular_variant_without_audio_group_fails() {
    let mut bare = regular("bare", "unused", "10");
    bare.audio = None;
    let input = vec![regular("ok", "a", "10"), bare, iframe("i", "10")];
    assert_eq!(reorder(input), Err(ReorderError::MissingAudioGroup));
}

#[test]
fn malformed_bandwidth_fails() {
    let input = vec![regular("ok", "a", "10"), regular("bad", "a", "fast")];
    assert_eq!(reorder(input), Err(ReorderError::MalformedBandwidth));
    let input = vec![regular("ok", "a", "10"), iframe("bad", "")];
    assert_eq!(reorder(input), Err(ReorderError::MalformedBandwidth));
}

#[test]
fn malformed_bandwidth_fails_even_alone_in_its_group() {
    let input = vec![regular("only", "a", "n/a")];
    assert_eq!(reorder(input), Err(ReorderError::MalformedBandwidth));
}

#[test]
fn missing_audio_group_is_reported_before_malformed_bandwidth() {
    let mut bare = regular("bare", "unused", "10");
    bare.audio = None;
    let input = vec![regular("bad", "a", "fast"), bare];
    assert_eq!(reorder(input), Err(ReorderError::MissingAudioGroup));
}

#[test]
fn iframe_variant_needs_no_audio_group() {
    let input = vec![iframe("i", "10")];
    assert_eq!(names(reorder(input)), vec!["i"]);
}

#[test]
fn empty_list_stays_empty() {
    let input: Vec<Variant<&'static str>> = Vec::new();
    assert_eq!(reorder(input), Ok(Vec::new()));
}

#[test]
fn only_iframes_are_sorted_by_bandwidth() {
    let input = vec![iframe("low", "1"), iframe("high", "3"), iframe("mid", "2")];
    assert_eq!(names(reorder(input)), vec!["high", "mid", "low"]);
}

#[test]
fn group_variants_fills_the_buckets_in_input_order() {
    let input = vec![
        regular("b1", "b", "1"),
        iframe("i1", "5"),
        regular("a1", "a", "9"),
        regular("b2", "b", "2"),
        iframe("i2", "4"),
    ];
    let total = input.len();
    let grouping = group_variants(input).unwrap();
    let frames: Vec<&str> = grouping.iframes.iter().map(|v| v.payload).collect();
    assert_eq!(frames, vec!["i1", "i2"]);
    assert_eq!(grouping.groups.len(), 2);
    let mut counted = grouping.iframes.len();
    for group in &grouping.groups {
        let members: Vec<&str> = group.members.iter().map(|v| v.payload).collect();
        match group.id.as_str() {
            "a" => assert_eq!(members, vec!["a1"]),
            "b" => assert_eq!(members, vec!["b1", "b2"]),
            other => panic!("unexpected group {:?}", other),
        }
        counted += group.members.len();
    }
    assert_eq!(counted, total);
}

#[test]
fn group_variants_fails_without_audio_group() {
    let mut bare = regular("bare", "unused", "10");
    bare.audio = None;
    assert!(matches!(group_variants(vec![bare]), Err(ReorderError::MissingAudioGroup)));
}

#[test]
fn group_variants_does_not_read_the_bandwidth() {
    let grouping = group_variants(vec![regular("bad", "a", "fast")]).unwrap();
    assert_eq!(grouping.groups.len(), 1);
    assert_eq!(reassemble(grouping), Err(ReorderError::MalformedBandwidth));
}

#[test]
fn reassemble_sorts_the_groups_by_identifier() {
    let input = vec![
        regular("z", "zulu", "1"),
        regular("m", "mike", "1"),
        iframe("i", "1"),
        regular("a", "alfa", "1"),
    ];
    let grouping = group_variants(input).unwrap();
    assert_eq!(names(reassemble(grouping)), vec!["a", "m", "z", "i"]);
}

#[test]
fn sort_descending_puts_the_highest_first() {
    let block = vec![
        regular("five-a", "a", "5"),
        regular("three", "a", "3"),
        regular("five-b", "a", "5"),
        regular("one", "a", "1"),
    ];
    assert_eq!(names(sort_descending(block)), vec!["five-b", "five-a", "three", "one"]);
}

#[test]
fn sort_descending_fails_on_malformed_bandwidth() {
    let block = vec![regular("ok", "a", "5"), regular("bad", "a", "5kbps")];
    assert_eq!(sort_descending(block), Err(ReorderError::MalformedBandwidth));
}
