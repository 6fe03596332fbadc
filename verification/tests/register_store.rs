use registers::clipboard::ClipboardType;
use registers::clipboard::InMemoryClipboard;
use registers::reconcile::contents_are_saved;
use registers::registers::EditorContext;
use registers::registers::RegisterError;
use registers::registers::Registers;
use registers::strings::decimal_string;
use registers::strings::first_line;
use registers::strings::join_values;
use registers::strings::native_line_ending;
use registers::strings::selection_index_values;

fn s(x: &str) -> String {
    x.to_string()
}

fn strings(xs: &[&str]) -> Vec<String> {
    xs.iter().map(|x| x.to_string()).collect()
}

fn ctx(selections: &[&str], path: Option<&str>) -> EditorContext {
    EditorContext { selections: strings(selections), path: path.map(|p| p.to_string()) }
}

fn store() -> Registers<InMemoryClipboard> {
    Registers::new(InMemoryClipboard::new())
}

#[test]
fn write_then_read_plain() {
    let mut reg = store();
    let ed = ctx(&[], None);
    assert!(reg.write('a', strings(&["v1", "v2", "v3"])).is_ok());
    assert_eq!(reg.read('a', &ed), Some(strings(&["v1", "v2", "v3"])));
}

#[test]
fn write_replaces_wholesale() {
    let mut reg = store();
    let ed = ctx(&[], None);
    assert!(reg.write('a', strings(&["x"])).is_ok());
    assert!(reg.write('a', strings(&["y", "z"])).is_ok());
    assert_eq!(reg.read('a', &ed), Some(strings(&["y", "z"])));
}

#[test]
fn push_appends_in_order() {
    let mut reg = store();
    let ed = ctx(&[], None);
    assert!(reg.write('a', strings(&["v1"])).is_ok());
    assert!(reg.push('a', s("v2")).is_ok());
    assert!(reg.push('a', s("v3")).is_ok());
    assert!(reg.push('a', s("v4")).is_ok());
    assert_eq!(reg.read('a', &ed), Some(strings(&["v1", "v2", "v3", "v4"])));
}

#[test]
fn push_creates_undefined_register() {
    let mut reg = store();
    let ed = ctx(&[], None);
    assert_eq!(reg.read('q', &ed), None);
    assert!(reg.push('q', s("v")).is_ok());
    assert_eq!(reg.read('q', &ed), Some(strings(&["v"])));
}

#[test]
fn computed_registers_reject_write_and_push() {
    let mut reg = store();
    for name in ['#', '.', '%'] {
        assert!(matches!(
            reg.write(name, strings(&["x"])),
            Err(RegisterError::UnsupportedOperation)
        ));
        assert!(matches!(reg.push(name, s("x")), Err(RegisterError::UnsupportedOperation)));
    }
}

#[test]
fn computed_reads_ignore_stored_data() {
    let mut reg = store();
    let ed = ctx(&["alpha", "beta"], Some("/tmp/doc.txt"));
    assert!(reg.write('a', strings(&["stored"])).is_ok());
    assert_eq!(reg.read('#', &ed), Some(strings(&["1", "2"])));
    assert_eq!(reg.read('.', &ed), Some(strings(&["alpha", "beta"])));
    assert_eq!(reg.read('%', &ed), Some(strings(&["/tmp/doc.txt"])));
    assert_eq!(reg.read('a', &ed), Some(strings(&["stored"])));
}

#[test]
fn black_hole_discards_everything() {
    let mut reg = store();
    let ed = ctx(&[], None);
    assert_eq!(reg.read('_', &ed), Some(Vec::new()));
    assert!(reg.write('_', strings(&["x", "y"])).is_ok());
    assert_eq!(reg.read('_', &ed), Some(Vec::new()));
    assert!(reg.push('_', s("z")).is_ok());
    assert_eq!(reg.read('_', &ed), Some(Vec::new()));
}

#[test]
fn selection_indices_three() {
    let reg = store();
    let ed = ctx(&["one", "two", "three"], None);
    assert_eq!(reg.read('#', &ed), Some(strings(&["1", "2", "3"])));
}

#[test]
fn selection_indices_two_digits() {
    let reg = store();
    let ed = ctx(
        &["a", "b", "c", "d", "e", "f", "g", "h", "i", "j", "k", "l"],
        None,
    );
    assert_eq!(
        reg.read('#', &ed),
        Some(strings(&["1", "2", "3", "4", "5", "6", "7", "8", "9", "10", "11", "12"]))
    );
}

#[test]
fn selection_contents_in_order() {
    let reg = store();
    let ed = ctx(&["first", "second"], None);
    assert_eq!(reg.read('.', &ed), Some(strings(&["first", "second"])));
}

#[test]
fn document_path_and_scratch_placeholder() {
    let reg = store();
    assert_eq!(
        reg.read('%', &ctx(&[], Some("/home/u/notes.md"))),
        Some(strings(&["/home/u/notes.md"]))
    );
    assert_eq!(reg.read('%', &ctx(&[], None)), Some(strings(&["[scratch]"])));
}

#[test]
fn clipboard_round_trip() {
    let mut reg = store();
    let ed = ctx(&[], None);
    assert!(reg.write('*', strings(&["a", "b"])).is_ok());
    assert_eq!(
        reg.clipboard_provider().current_text(ClipboardType::Clipboard),
        s("a\nb")
    );
    assert_eq!(reg.read('*', &ed), Some(strings(&["a", "b"])));
}

#[test]
fn clipboard_divergence_discards_cache() {
    let mut reg = store();
    let ed = ctx(&[], None);
    assert!(reg.write('*', strings(&["a", "b"])).is_ok());
    reg.clipboard_provider_mut().overwrite(s("zzz"), ClipboardType::Clipboard);
    assert_eq!(reg.read('*', &ed), Some(strings(&["zzz"])));
}

#[test]
fn clipboard_partial_prefix_does_not_match() {
    let mut reg = store();
    let ed = ctx(&[], None);
    assert!(reg.write('*', strings(&["a", "b"])).is_ok());
    reg.clipboard_provider_mut().overwrite(s("a\nbX"), ClipboardType::Clipboard);
    assert_eq!(reg.read('*', &ed), Some(strings(&["a\nbX"])));
}

#[test]
fn clipboard_push_builds_sequence() {
    let mut reg = store();
    let ed = ctx(&[], None);
    // With nothing cached, the empty external text counts as one verbatim
    // fragment, so the first push lands after it.
    assert!(reg.push('*', s("x")).is_ok());
    assert_eq!(reg.read('*', &ed), Some(strings(&["", "x"])));
    assert!(reg.write('*', strings(&["x"])).is_ok());
    assert!(reg.push('*', s("y")).is_ok());
    assert_eq!(reg.read('*', &ed), Some(strings(&["x", "y"])));
    assert_eq!(
        reg.clipboard_provider().current_text(ClipboardType::Clipboard),
        s("x\ny")
    );
}

#[test]
fn clipboard_push_starts_from_external_change() {
    let mut reg = store();
    let ed = ctx(&[], None);
    assert!(reg.write('*', strings(&["a", "b"])).is_ok());
    reg.clipboard_provider_mut().overwrite(s("xyz"), ClipboardType::Clipboard);
    assert!(reg.push('*', s("w")).is_ok());
    assert_eq!(reg.read('*', &ed), Some(strings(&["xyz", "w"])));
    assert_eq!(
        reg.clipboard_provider().current_text(ClipboardType::Clipboard),
        s("xyz\nw")
    );
}

#[test]
fn system_and_primary_clipboards_are_independent() {
    let mut reg = store();
    let ed = ctx(&[], None);
    assert!(reg.write('*', strings(&["sys"])).is_ok());
    assert!(reg.write('+', strings(&["prim"])).is_ok());
    assert_eq!(reg.read('*', &ed), Some(strings(&["sys"])));
    assert_eq!(reg.read('+', &ed), Some(strings(&["prim"])));
    assert_eq!(
        reg.clipboard_provider().current_text(ClipboardType::Clipboard),
        s("sys")
    );
    assert_eq!(
        reg.clipboard_provider().current_text(ClipboardType::Selection),
        s("prim")
    );
}

#[test]
fn clipboard_failure_propagates_and_leaves_state() {
    let mut reg = store();
    let ed = ctx(&[], None);
    assert!(reg.write('*', strings(&["kept"])).is_ok());
    reg.clipboard_provider_mut().set_failing(true);
    assert!(matches!(
        reg.write('*', strings(&["lost"])),
        Err(RegisterError::ClipboardFailure(_))
    ));
    assert!(matches!(reg.push('*', s("lost")), Err(RegisterError::ClipboardFailure(_))));
    reg.clipboard_provider_mut().set_failing(false);
    assert_eq!(reg.read('*', &ed), Some(strings(&["kept"])));
    assert_eq!(
        reg.clipboard_provider().current_text(ClipboardType::Clipboard),
        s("kept")
    );
}

#[test]
fn clipboard_failure_read_degrades_to_empty() {
    let mut reg = store();
    let ed = ctx(&[], None);
    reg.clipboard_provider_mut().set_failing(true);
    assert_eq!(reg.read('*', &ed), Some(Vec::new()));
    assert_eq!(reg.read('+', &ed), Some(Vec::new()));
}

#[test]
fn uncached_clipboard_read_is_verbatim() {
    let mut reg = store();
    let ed = ctx(&[], None);
    reg.clipboard_provider_mut().overwrite(s("raw text"), ClipboardType::Clipboard);
    assert_eq!(reg.read('*', &ed), Some(strings(&["raw text"])));
}

#[test]
fn empty_clipboard_write_round_trip_is_opaque() {
    let mut reg = store();
    let ed = ctx(&[], None);
    assert!(reg.write('*', Vec::new()).is_ok());
    assert_eq!(
        reg.clipboard_provider().current_text(ClipboardType::Clipboard),
        s("")
    );
    assert_eq!(reg.read('*', &ed), Some(strings(&[""])));
}

#[test]
fn remove_defined_plain_register() {
    let mut reg = store();
    let ed = ctx(&[], None);
    assert!(reg.write('a', strings(&["v"])).is_ok());
    assert!(reg.remove('a'));
    assert_eq!(reg.read('a', &ed), None);
    assert!(!reg.remove('a'));
}

#[test]
fn remove_special_registers_refused() {
    let mut reg = store();
    assert!(reg.write('*', strings(&["v"])).is_ok());
    for name in ['_', '#', '.', '%', '*', '+'] {
        assert!(!reg.remove(name));
    }
}

#[test]
fn clear_then_preview_shows_only_fixed_summaries() {
    let mut reg = store();
    assert!(reg.write('a', strings(&["x"])).is_ok());
    assert!(reg.write('b', strings(&["y"])).is_ok());
    assert!(reg.write('*', strings(&["z"])).is_ok());
    reg.clear();
    assert_eq!(
        reg.iter_preview(),
        vec![
            ('_', s("<empty>")),
            ('#', s("<selection indices>")),
            ('.', s("<selection contents>")),
            ('%', s("<document path>")),
            ('*', s("<system clipboard>")),
            ('+', s("<primary clipboard>")),
        ]
    );
}

#[test]
fn preview_summarizes_stored_entries() {
    let mut reg = store();
    assert!(reg.write('a', strings(&["hello\nworld"])).is_ok());
    assert!(reg.push('c', s("one")).is_ok());
    assert!(reg.push('c', s("two")).is_ok());
    assert!(reg.write('d', strings(&["x\r\ny"])).is_ok());
    assert!(reg.write('e', strings(&[""])).is_ok());
    assert!(reg.write('*', strings(&["secret"])).is_ok());
    let preview = reg.iter_preview();
    assert_eq!(
        preview,
        vec![
            ('a', s("hello")),
            ('c', s("two")),
            ('d', s("x")),
            ('e', s("<empty>")),
            ('_', s("<empty>")),
            ('#', s("<selection indices>")),
            ('.', s("<selection contents>")),
            ('%', s("<document path>")),
            ('*', s("<system clipboard>")),
            ('+', s("<primary clipboard>")),
        ]
    );
}

#[test]
fn first_and_last_fragments() {
    let mut reg = store();
    let ed = ctx(&["s1", "s2"], None);
    assert!(reg.write('a', strings(&["head", "mid", "tail"])).is_ok());
    assert_eq!(reg.first('a', &ed), Some(s("head")));
    assert_eq!(reg.last('a', &ed), Some(s("tail")));
    assert_eq!(reg.first('q', &ed), None);
    assert_eq!(reg.last('q', &ed), None);
    assert_eq!(reg.first('_', &ed), None);
    assert_eq!(reg.first('#', &ed), Some(s("1")));
    assert_eq!(reg.last('#', &ed), Some(s("2")));
}

#[test]
fn reconstruction_test_is_exact() {
    // Stored order is reversed: logical ["a", "b"] is stored ["b", "a"].
    assert!(contents_are_saved(&strings(&["b", "a"]), "a\nb"));
    assert!(!contents_are_saved(&strings(&["b", "a"]), "a\nbX"));
    assert!(!contents_are_saved(&strings(&["b", "a"]), "a\n"));
    assert!(!contents_are_saved(&strings(&["b", "a"]), "b\na"));
    assert!(!contents_are_saved(&Vec::new(), ""));
    // Fragments may themselves contain line endings.
    assert!(contents_are_saved(&strings(&["c", "a\nb"]), "a\nb\nc"));
    assert!(!contents_are_saved(&strings(&["a", "b"]), "a\nb\nc"));
}

#[test]
fn string_helpers() {
    assert_eq!(join_values(&strings(&["a", "b", "c"]), native_line_ending()), s("a\nb\nc"));
    assert_eq!(join_values(&Vec::new(), native_line_ending()), s(""));
    assert_eq!(join_values(&strings(&["solo"]), native_line_ending()), s("solo"));
    assert_eq!(decimal_string(0), s("0"));
    assert_eq!(decimal_string(7), s("7"));
    assert_eq!(decimal_string(10), s("10"));
    assert_eq!(decimal_string(409), s("409"));
    assert_eq!(first_line("no newline"), s("no newline"));
    assert_eq!(first_line("a\r\nb"), s("a"));
    assert_eq!(first_line("\nx"), s(""));
    assert_eq!(first_line(""), s(""));
    assert_eq!(selection_index_values(2), strings(&["1", "2"]));
}
