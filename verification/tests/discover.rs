use bn6f_harness::discover::{
    bk2_dir, first_marked, flat_file, input_candidates, input_frame_count, listed_stems, state_candidates,
};
use bn6f_harness::orchestrate::{extension_is, file_stem_of};

fn strs(xs: &[&str]) -> Vec<String> {
    xs.iter().map(|x| x.to_string()).collect()
}

#[test]
fn stems_of_listed_movies_in_name_order() {
    let names = strs(&["b.bk2", "a.bk2", "notes.txt", "a-b.bk2", ".bk2", "c.BK2", "d.bk2.bak", "b.bk2"]);
    assert_eq!(listed_stems(&names, "bk2"), strs(&["a-b", "a", "b", "b"]));
    assert_eq!(listed_stems(&names, "txt"), strs(&["notes"]));
    assert_eq!(listed_stems(&[], "bk2"), Vec::<String>::new());
}

#[test]
fn stems_and_extensions_of_names() {
    assert_eq!(file_stem_of("run1.bk2"), "run1");
    assert_eq!(file_stem_of("a.tar.gz"), "a.tar");
    assert_eq!(file_stem_of(".hidden"), ".hidden");
    assert_eq!(file_stem_of("a."), "a");
    assert_eq!(file_stem_of(".."), "");
    assert_eq!(file_stem_of("."), "");
    assert!(extension_is("a.tar.gz", "gz"));
    assert!(extension_is("a.", ""));
    assert!(!extension_is(".input", "input"));
    assert!(!extension_is("..", ""));
    assert!(!extension_is("noext", ""));
}

#[test]
fn candidate_paths_in_order() {
    assert_eq!(bk2_dir("demos"), "demos/bk2");
    assert_eq!(bk2_dir("demos/"), "demos/bk2");
    assert_eq!(flat_file("d", "s", "ss"), "d/s.ss");
    assert_eq!(
        state_candidates("demos/bk2", "run1"),
        strs(&[
            "demos/bk2/run1/state.ss",
            "demos/bk2/run1/state.ss1",
            "demos/bk2/run1/state.ss2",
            "demos/bk2/run1.ss",
            "demos/bk2/run1.ss1",
            "demos/bk2/run1.ss2",
        ])
    );
    assert_eq!(input_candidates("demos/bk2", "run1"), strs(&["demos/bk2/run1/inputs.input", "demos/bk2/run1.input"]));
}

#[test]
fn input_frames_are_four_bytes_each() {
    assert_eq!(input_frame_count(0), 0);
    assert_eq!(input_frame_count(10), 2);
    assert_eq!(input_frame_count(12), 3);
}

#[test]
fn first_marked_candidate() {
    let c = strs(&["a", "b", "c"]);
    assert_eq!(first_marked(&c, &[false, true, true]), Some("b".to_string()));
    assert_eq!(first_marked(&c, &[true]), Some("a".to_string()));
    assert_eq!(first_marked(&c, &[false, false]), None);
    assert_eq!(first_marked(&c, &[false, false, false, true]), None);
    assert_eq!(first_marked(&[], &[true]), None);
}
