use env_control::merge::{build_new_value, collect_changes, process_paths};
use env_control::path_set::iter;

fn strings(items: &[&str]) -> Vec<String> {
    items.iter().map(|s| s.to_string()).collect()
}

fn merge(prepend: &[&str], current: &str, append: &[&str], remove: &[&str]) -> String {
    build_new_value(current, collect_changes(strings(prepend), strings(append), strings(remove)))
}

#[test]
fn appended_segment_follows_the_current_ones() {
    assert_eq!(
        merge(&[], "/usr/bin:/bin", &["/usr/local/bin"], &[]),
        "/usr/bin:/bin:/usr/local/bin"
    );
}

#[test]
fn repeated_segment_is_kept_once_at_its_first_occurrence() {
    assert_eq!(merge(&[], "/a:/b:/a", &[], &[]), "/a:/b");
}

#[test]
fn empty_segment_between_two_colons_is_dropped() {
    assert_eq!(merge(&[], "/a::/b", &[], &[]), "/a:/b");
}

#[test]
fn removed_segment_is_left_out() {
    assert_eq!(merge(&[], "/a:/b", &[], &["/a"]), "/b");
}

#[test]
fn empty_current_value_gives_prepended_then_appended() {
    assert_eq!(merge(&["/x"], "", &["/y"], &[]), "/x:/y");
}

#[test]
fn prepended_segment_wins_over_its_later_occurrence() {
    assert_eq!(merge(&["/b"], "/a:/b", &[], &[]), "/b:/a");
}

#[test]
fn nothing_to_change_and_nothing_current_gives_the_empty_value() {
    assert_eq!(merge(&[], "", &[], &[]), "");
}

#[test]
fn value_of_colons_only_gives_the_empty_value() {
    assert_eq!(merge(&[], ":::", &[], &[]), "");
}

#[test]
fn single_segment_is_written_without_colon() {
    assert_eq!(merge(&[], "/a", &[], &[]), "/a");
    assert_eq!(merge(&["/a"], "", &[], &[]), "/a");
    assert_eq!(merge(&[], "", &["/a"], &[]), "/a");
}

#[test]
fn white_space_segments_are_dropped() {
    assert_eq!(merge(&[" "], "/a: :\t:/b", &["\n"], &[]), "/a:/b");
}

#[test]
fn kept_segments_are_not_trimmed() {
    assert_eq!(merge(&[], " /a :/b ", &[], &[]), " /a :/b ");
}

#[test]
fn segments_that_differ_in_white_space_are_different() {
    assert_eq!(merge(&[], "/a:/a :/a", &[], &[]), "/a:/a ");
}

#[test]
fn removal_is_by_exact_match() {
    assert_eq!(merge(&[], "/a:/a/:/a ", &[], &["/a"]), "/a/:/a ");
}

#[test]
fn removed_segment_is_left_out_of_every_source() {
    assert_eq!(merge(&["/a", "/p"], "/a:/c", &["/a", "/z"], &["/a"]), "/p:/c:/z");
}

#[test]
fn removing_everything_gives_the_empty_value() {
    assert_eq!(merge(&["/a"], "/b", &["/c"], &["/a", "/b", "/c"]), "");
}

#[test]
fn values_to_remove_may_hold_several_segments() {
    assert_eq!(merge(&[], "/a:/b:/c", &[], &["/a:/c"]), "/b");
}

#[test]
fn values_to_prepend_and_append_may_hold_several_segments() {
    assert_eq!(merge(&["/p:/q"], "/a", &["/y:/z"], &[]), "/p:/q:/a:/y:/z");
}

#[test]
fn order_is_prepended_then_current_then_appended() {
    assert_eq!(
        merge(&["/front/b", "/front/a"], "/mid/a:/mid/b", &["/back/b", "/back/a"], &[]),
        "/front/b:/front/a:/mid/a:/mid/b:/back/b:/back/a"
    );
}

#[test]
fn appended_segment_that_is_already_there_keeps_its_place() {
    assert_eq!(merge(&[], "/a:/b", &["/a"], &[]), "/a:/b");
}

#[test]
fn segment_repeated_over_all_sources_stays_at_the_front() {
    assert_eq!(merge(&["/a:/a"], "/b:/a", &["/a", "/b", "/c"], &[]), "/a:/b:/c");
}

#[test]
fn merged_value_holds_no_removed_segment() {
    let removed = ["/usr/bin", "/opt/x"];
    let value = merge(&["/opt/x:/p"], "/usr/bin:/bin:/opt/x", &["/usr/bin"], &removed);
    assert_eq!(value, "/p:/bin");
    for segment in value.split(':') {
        assert!(!removed.contains(&segment));
    }
}

#[test]
fn merged_value_holds_no_blank_segment() {
    let value = merge(&["", " "], ":/a:: \t :/b:", &["\r\n"], &[]);
    assert_eq!(value, "/a:/b");
    for segment in value.split(':') {
        assert!(!segment.trim().is_empty());
    }
}

#[test]
fn merged_value_holds_each_segment_once() {
    let value = merge(&["/b:/c"], "/a:/b:/c:/a:/d", &["/d:/e:/a"], &[]);
    assert_eq!(value, "/b:/c:/a:/d:/e");
    let segments: Vec<&str> = value.split(':').collect();
    for (i, segment) in segments.iter().enumerate() {
        assert!(!segments[..i].contains(segment));
    }
}

#[test]
fn merging_a_merged_value_again_changes_nothing() {
    let cases: [(&[&str], &str, &[&str], &[&str]); 4] = [
        (&["/b"], "/a:/b::/a", &["/c: :/a"], &["/c"]),
        (&[], "", &[], &[]),
        (&[], ": :", &[], &[""]),
        (&["/x:/y"], "/y:/z", &["/x"], &["/q"]),
    ];
    for (prepend, current, append, remove) in cases {
        let once = merge(prepend, current, append, remove);
        let twice = merge(&[], &once, &[], remove);
        assert_eq!(twice, once);
    }
}

#[test]
fn process_paths_appends_to_what_the_writer_holds() {
    let mut writer = String::from("PATH=");
    let changes = collect_changes(strings(&["/p"]), strings(&["/z"]), strings(&["/b"]));
    process_paths(&mut writer, changes, "/a:/b:/p");
    assert_eq!(writer, "PATH=/p:/a:/z");
}

#[test]
fn process_paths_writes_nothing_when_nothing_is_retained() {
    let mut writer = String::from("kept");
    let changes = collect_changes(Vec::new(), Vec::new(), strings(&["/a"]));
    process_paths(&mut writer, changes, "/a: :/a");
    assert_eq!(writer, "kept");
}

#[test]
fn changes_take_up_where_their_splitters_stand() {
    let mut changes = collect_changes(strings(&["/p:/q:/r"]), strings(&["/x:/y"]), Vec::new());
    assert_eq!(changes.to_prepend.next(), Some("/p".to_string()));
    assert_eq!(changes.to_append.next(), Some("/x".to_string()));
    assert_eq!(build_new_value("/a", changes), "/q:/r:/a:/y");
}

#[test]
fn changes_hold_the_splitters_they_are_given() {
    let mut changes = collect_changes(Vec::new(), Vec::new(), strings(&["/b"]));
    changes.to_prepend = iter(strings(&["/b:/c"]));
    changes.to_append = iter(strings(&["/d"]));
    assert_eq!(build_new_value("/a", changes), "/c:/a:/d");
}

#[test]
fn removal_set_holds_the_segments_to_remove() {
    let changes = collect_changes(Vec::new(), Vec::new(), strings(&["/a:/b", "/c"]));
    assert!(changes.to_remove.contains("/a"));
    assert!(changes.to_remove.contains("/b"));
    assert!(changes.to_remove.contains("/c"));
    assert!(!changes.to_remove.contains("/a:/b"));
    assert!(!changes.to_remove.contains("/d"));
}
