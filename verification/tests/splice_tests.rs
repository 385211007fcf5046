//! Splice engine scenarios, run against the live interpreter and against
//! the deterministic outcome replay.

use manifestpp::splice::{splice_document, splice_with_outcomes, Outcome};
use manifestpp::PpError;

fn lua() -> mlua::Lua {
    mlua::Lua::new()
}

#[test]
fn no_markers_document_unchanged() {
    let doc = b"hello\nworld, no markers here\n".to_vec();
    let out = splice_document(&doc, 1, &lua()).unwrap();
    assert_eq!(out, doc);
}

#[test]
fn no_markers_unchanged_at_every_depth() {
    let doc = b"plain text % with \"\" stray pieces %% \"\" only".to_vec();
    for depth in 1..=5usize {
        let out = splice_document(&doc, depth, &lua()).unwrap();
        assert_eq!(out, doc);
    }
}

#[test]
fn no_markers_replay_unchanged() {
    let doc = b"nothing to do".to_vec();
    let out = splice_with_outcomes(&doc, 1, &Vec::new()).unwrap();
    assert_eq!(out, doc);
}

#[test]
fn empty_document_unchanged() {
    let doc = Vec::new();
    let out = splice_document(&doc, 1, &lua()).unwrap();
    assert!(out.is_empty());
}

#[test]
fn empty_code_block_splices_nothing() {
    let doc = b"a\"\"\"%%\"\"\"b".to_vec();
    let out = splice_document(&doc, 1, &lua()).unwrap();
    assert_eq!(out, b"ab".to_vec());
}

#[test]
fn value_spliced_where_marker_stood() {
    let doc = b"A\"\"\"%return \"X\"%\"\"\"B".to_vec();
    let out = splice_document(&doc, 1, &lua()).unwrap();
    assert_eq!(out, b"AXB".to_vec());
}

#[test]
fn value_spliced_bare_document() {
    let doc = b"\"\"\"%return \"X\"%\"\"\"".to_vec();
    let out = splice_document(&doc, 1, &lua()).unwrap();
    assert_eq!(out, b"X".to_vec());
}

#[test]
fn side_effect_block_splices_nothing() {
    let doc = b"\"\"\"%print(\"hi\")%\"\"\"".to_vec();
    let out = splice_document(&doc, 1, &lua()).unwrap();
    assert_eq!(out, b"".to_vec());
}

#[test]
fn side_effect_block_keeps_surrounding_text() {
    let doc = b"before \"\"\"%print(\"hi\")%\"\"\" after".to_vec();
    let out = splice_document(&doc, 1, &lua()).unwrap();
    assert_eq!(out, b"before  after".to_vec());
}

#[test]
fn substitutions_keep_document_order() {
    let doc = b"A\"\"\"%return \"1\"%\"\"\"B\"\"\"%return \"2\"%\"\"\"C".to_vec();
    let out = splice_document(&doc, 1, &lua()).unwrap();
    assert_eq!(out, b"A1B2C".to_vec());
}

#[test]
fn substitutions_keep_order_in_replay() {
    let doc = b"A\"\"\"%x%\"\"\"B\"\"\"%y%\"\"\"C".to_vec();
    let outcomes = vec![
        Outcome::Value(b"1".to_vec()),
        Outcome::NoValue,
    ];
    let out = splice_with_outcomes(&doc, 1, &outcomes).unwrap();
    assert_eq!(out, b"A1BC".to_vec());
}

#[test]
fn pending_block_buffers_exact_inter_block_text() {
    let doc = b"\"\"\"%for i=1,1 do%\"\"\"MIDDLE\"\"\"%end%\"\"\"".to_vec();
    let out = splice_document(&doc, 1, &lua()).unwrap();
    assert_eq!(out, b"MIDDLE".to_vec());
}

#[test]
fn pending_block_script_decides_replacement() {
    let doc =
        b"\"\"\"%local function f()%\"\"\"word\"\"\"%end return f() .. f()%\"\"\"".to_vec();
    let out = splice_document(&doc, 1, &lua()).unwrap();
    assert_eq!(out, b"wordword".to_vec());
}

#[test]
fn pending_replay_splices_combined_value() {
    let doc = b"lead\"\"\"%a%\"\"\"mid\"\"\"%b%\"\"\"tail".to_vec();
    let outcomes = vec![Outcome::Incomplete, Outcome::Value(b"Z".to_vec())];
    let out = splice_with_outcomes(&doc, 1, &outcomes).unwrap();
    assert_eq!(out, b"leadZtail".to_vec());
}

#[test]
fn unterminated_pending_block_fails() {
    let doc = b"\"\"\"%for i=1,1 do%\"\"\"tail text".to_vec();
    let r = splice_document(&doc, 1, &lua());
    assert!(matches!(r, Err(PpError::UnclosedBlock(_))));
}

#[test]
fn unterminated_pending_replay_fails() {
    let doc = b"\"\"\"%a%\"\"\"rest".to_vec();
    let outcomes = vec![Outcome::Incomplete];
    let r = splice_with_outcomes(&doc, 1, &outcomes);
    assert!(matches!(r, Err(PpError::UnclosedBlock(_))));
}

#[test]
fn unclosed_error_carries_accumulated_script() {
    let doc = b"\"\"\"%for i=1,1 do%\"\"\"tail".to_vec();
    match splice_document(&doc, 1, &lua()) {
        Err(PpError::UnclosedBlock(script)) => {
            assert_eq!(script, b"for i=1,1 do".to_vec());
        }
        other => panic!("expected an unclosed-block failure, got {other:?}"),
    }
}

#[test]
fn script_error_is_fatal() {
    let doc = b"\"\"\"%error('boom')%\"\"\"".to_vec();
    let r = splice_document(&doc, 1, &lua());
    assert!(matches!(r, Err(PpError::ScriptFailure(_))));
}

#[test]
fn fatal_replay_outcome_fails() {
    let doc = b"\"\"\"%x%\"\"\"".to_vec();
    let outcomes = vec![Outcome::Fatal(b"stack overflow".to_vec())];
    match splice_with_outcomes(&doc, 1, &outcomes) {
        Err(PpError::ScriptFailure(m)) => assert_eq!(m, b"stack overflow".to_vec()),
        other => panic!("expected a script failure, got {other:?}"),
    }
}

#[test]
fn binary_chunk_signature_is_fatal_not_executed() {
    let mut doc = b"\"\"\"%".to_vec();
    doc.extend_from_slice(b"\x1bLua\x00\x01\x02\x03");
    doc.extend_from_slice(b"%\"\"\"");
    let r = splice_document(&doc, 1, &lua());
    assert!(matches!(r, Err(PpError::ScriptFailure(_))));
}

#[test]
fn misordered_markers_rejected() {
    let doc = b"%\"\"\"x\"\"\"%".to_vec();
    let r = splice_document(&doc, 1, &lua());
    assert!(matches!(r, Err(PpError::MisorderedMarkers)));
}

#[test]
fn interpreter_state_spans_blocks() {
    let doc = b"\"\"\"%v = \"S\"%\"\"\"-\"\"\"%return v%\"\"\"".to_vec();
    let out = splice_document(&doc, 1, &lua()).unwrap();
    assert_eq!(out, b"-S".to_vec());
}

#[test]
fn deeper_marker_survives_outer_pass_then_expands() {
    let doc = b"X\"\"\"%%%%return \"Y\"%%%%\"\"\"Z".to_vec();
    let lua = lua();
    let after_depth5 = splice_document(&doc, 5, &lua).unwrap();
    assert_eq!(after_depth5, doc);
    let after_depth4 = splice_document(&after_depth5, 4, &lua).unwrap();
    assert_eq!(after_depth4, b"XYZ".to_vec());
}

#[test]
fn emitted_deeper_marker_expands_on_its_own_pass() {
    let doc = b"\"\"\"%%return \"\\\"\\\"\\\"%return \\\"deep\\\"%\\\"\\\"\\\"\"%%\"\"\"".to_vec();
    let lua = lua();
    let after_depth2 = splice_document(&doc, 2, &lua).unwrap();
    assert_eq!(after_depth2, b"\"\"\"%return \"deep\"%\"\"\"".to_vec());
    let after_depth1 = splice_document(&after_depth2, 1, &lua).unwrap();
    assert_eq!(after_depth1, b"deep".to_vec());
}

#[test]
fn marker_width_scales_with_depth() {
    let doc = b"L\"\"\"%%%return \"3\"%%%\"\"\"R".to_vec();
    let out = splice_document(&doc, 3, &lua()).unwrap();
    assert_eq!(out, b"L3R".to_vec());
}
