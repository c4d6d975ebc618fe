use workpool::count_physical_cores;

fn lines(strs: &[&str]) -> Vec<Vec<u8>> {
    strs.iter().map(|s| s.as_bytes().to_vec()).collect()
}

#[test]
fn counts_distinct_pairs_across_blocks() {
    let input = lines(&[
        "processor\t: 0",
        "physical id\t: 0",
        "core id\t\t: 0",
        "",
        "processor\t: 1",
        "physical id\t: 0",
        "core id\t\t: 1",
        "",
        "processor\t: 2",
        "physical id\t: 0",
        "core id\t\t: 0",
        "",
    ]);
    assert_eq!(count_physical_cores(&input), 2);
}

#[test]
fn last_block_counts_without_trailing_blank_line() {
    let input = lines(&["physical id : 1", "core id : 3"]);
    assert_eq!(count_physical_cores(&input), 1);
}

#[test]
fn empty_input_has_no_cores() {
    assert_eq!(count_physical_cores(&lines(&[])), 0);
}

#[test]
fn incomplete_block_contributes_nothing() {
    assert_eq!(count_physical_cores(&lines(&["physical id : 0", ""])), 0);
    assert_eq!(count_physical_cores(&lines(&["core id : 0"])), 0);
}

#[test]
fn blank_line_resets_the_block() {
    let input = lines(&["physical id : 0", "", "core id : 1"]);
    assert_eq!(count_physical_cores(&input), 0);
}

#[test]
fn unparsable_value_is_ignored() {
    assert_eq!(count_physical_cores(&lines(&["physical id : abc", "core id : 1"])), 0);
    assert_eq!(count_physical_cores(&lines(&["physical id : 12x", "core id : 1"])), 0);
    assert_eq!(count_physical_cores(&lines(&["physical id :", "core id : 1"])), 0);
}

#[test]
fn last_value_in_a_block_wins() {
    let input = lines(&[
        "physical id : 0",
        "physical id : 1",
        "core id : 0",
        "",
        "physical id : 0",
        "core id : 0",
    ]);
    assert_eq!(count_physical_cores(&input), 2);
}

#[test]
fn value_with_plus_sign_parses() {
    let input = lines(&["physical id : +2", "core id : 3"]);
    assert_eq!(count_physical_cores(&input), 1);
}

#[test]
fn line_without_colon_is_ignored() {
    let input = lines(&["physical id 7", "physical id : 1", "core id : 2"]);
    assert_eq!(count_physical_cores(&input), 1);
}

#[test]
fn value_beyond_u32_is_ignored_and_the_maximum_parses() {
    let too_big = lines(&["physical id : 4294967296", "core id : 1"]);
    assert_eq!(count_physical_cores(&too_big), 0);
    let max = lines(&["physical id : 4294967295", "core id : 1"]);
    assert_eq!(count_physical_cores(&max), 1);
}

#[test]
fn second_colon_ends_the_field() {
    let input = lines(&["physical id : 3:junk", "core id : 1"]);
    assert_eq!(count_physical_cores(&input), 1);
}

#[test]
fn duplicate_pairs_in_one_input_count_once() {
    let input = lines(&[
        "physical id : 5",
        "core id : 9",
        "",
        "physical id : 5",
        "core id : 9",
    ]);
    assert_eq!(count_physical_cores(&input), 1);
}
