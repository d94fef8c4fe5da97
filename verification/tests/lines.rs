use game2048::line::shift_line;

fn shifted(input: [i32; 4], forward: bool) -> [i32; 4] {
    let line: Vec<i32> = vec![input[0], input[1], input[2], input[3]];
    let out: Vec<i32> = shift_line(&line, forward);
    [out[0], out[1], out[2], out[3]]
}

#[test]
fn no_cascading_merge_toward_high() {
    assert_eq!(shifted([2, 2, 2, 0], true), [0, 2, 0, 4]);
}

#[test]
fn no_cascading_merge_toward_low() {
    assert_eq!(shifted([0, 2, 2, 2], false), [4, 0, 2, 0]);
}

#[test]
fn compression_toward_low() {
    assert_eq!(shifted([0, 0, 2, 0], false), [2, 0, 0, 0]);
}

#[test]
fn compression_toward_high() {
    assert_eq!(shifted([0, 0, 2, 0], true), [0, 0, 0, 2]);
}

#[test]
fn non_flush_line_still_changes() {
    assert_eq!(shifted([2, 0, 4, 0], true), [0, 0, 2, 4]);
}

#[test]
fn flush_line_is_unchanged() {
    assert_eq!(shifted([0, 0, 2, 4], true), [0, 0, 2, 4]);
}

#[test]
fn all_zero_line_is_unchanged() {
    assert_eq!(shifted([0, 0, 0, 0], true), [0, 0, 0, 0]);
    assert_eq!(shifted([0, 0, 0, 0], false), [0, 0, 0, 0]);
}

#[test]
fn two_pairs_merge_once_each() {
    assert_eq!(shifted([2, 2, 4, 4], true), [0, 4, 0, 8]);
    assert_eq!(shifted([2, 2, 4, 4], false), [4, 0, 8, 0]);
}

#[test]
fn four_equal_tiles_merge_into_two_pairs() {
    assert_eq!(shifted([2, 2, 2, 2], false), [4, 0, 4, 0]);
    assert_eq!(shifted([2, 2, 2, 2], true), [0, 4, 0, 4]);
}

#[test]
fn merge_conserves_line_sum() {
    let cases: [[i32; 4]; 5] = [
        [2, 2, 4, 0],
        [2, 2, 2, 2],
        [0, 4, 4, 8],
        [16, 0, 16, 2],
        [2, 0, 0, 2],
    ];
    for case in cases.iter() {
        let before: i32 = case.iter().sum();
        for forward in [false, true] {
            let out = shifted(*case, forward);
            let after: i32 = out.iter().sum();
            assert_eq!(before, after);
        }
    }
}
