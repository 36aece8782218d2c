use tui_from_zero::cellbuffer::Cell;
use tui_from_zero::harness::snapshot;
use tui_from_zero::scene::{check_scene_fits, compile, parse, parse_kv, SceneError};
use tui_from_zero::widgets::{Rect, WidgetNode};

#[test]
fn parse_label_line() {
    let scene = parse(r#"label x=2 y=0 fg=4 text="hello""#).expect("parse");
    assert_eq!(scene.len(), 1);
}

#[test]
fn parse_block_line() {
    let scene = parse("block x=0 y=0 w=4 h=2 fg=3 ch=#").expect("parse");
    assert_eq!(scene.len(), 1);
}

#[test]
fn unknown_widget_returns_err() {
    let err = parse("foobar x=0").err();
    assert_eq!(err, Some(SceneError::UnknownWidget("foobar".to_string())));
}

#[test]
fn comments_and_blanks_are_skipped() {
    let s = parse("# this is a comment\n\nlabel x=0 y=0 fg=1 text=\"hi\"").expect("parse");
    assert_eq!(s.len(), 1);
}

#[test]
fn compile_paints_label_into_buffer() {
    let buf = compile(r#"label x=0 y=0 w=4 h=1 fg=4 text="abc""#, 10, 1);
    assert_eq!(buf.get(0, 0).ch, 'a');
    assert_eq!(buf.get(2, 0).ch, 'c');
}

#[test]
fn display_renders_both_variants() {
    let u = SceneError::UnknownWidget("foo".into());
    assert!(u.to_string().contains("foo"));
    let m = SceneError::MalformedLine("oops".into());
    assert!(m.to_string().contains("oops"));
}

#[test]
fn compile_swallows_parse_errors() {
    let buf = compile("unknown x=0 y=0", 4, 1);
    for x in 0..4 {
        assert_eq!(buf.get(x, 0).ch, ' ');
    }
}

#[test]
fn parse_kv_handles_unquoted_values() {
    let scene = parse("block x=2 y=1 w=3 h=1 fg=5 ch=*").expect("parse");
    assert_eq!(scene.len(), 1);
}

#[test]
fn parse_kv_handles_trailing_quoted() {
    let scene = parse("label x=0 y=0 w=4 h=1 fg=1 text=\"oops").expect("parse");
    assert_eq!(scene.len(), 1);
}

#[test]
fn parse_kv_handles_no_equals_token() {
    let scene = parse("label foo").expect("parse");
    assert_eq!(scene.len(), 1);
}

#[test]
fn parse_kv_handles_trailing_whitespace() {
    let scene = parse("label x=0 y=0 w=2 h=1 fg=4 text=\"a\"   ").expect("parse");
    assert_eq!(scene.len(), 1);
}

#[test]
fn parse_kv_direct_with_trailing_whitespace() {
    let kv = parse_kv("x=1   ");
    assert_eq!(kv, vec![("x".to_string(), "1".to_string())]);
}

#[test]
fn probar_snapshot_scene_compiles_to_expected_layout() {
    let src = r#"
label x=0 y=0 w=5 h=1 fg=4 text="hi!"
block x=0 y=1 w=5 h=1 fg=3 ch=#
"#;
    let buf = compile(src, 5, 2);
    let actual = snapshot(&buf);
    assert_eq!(actual, "hi!  \n#####\n");
}

fn kv(s: &str) -> Vec<(String, String)> {
    parse_kv(s)
}

fn pair(k: &str, v: &str) -> (String, String) {
    (k.to_string(), v.to_string())
}

#[test]
fn parse_kv_tokenizer_cases() {
    assert_eq!(
        kv("  a=1 text=\"two words\" b= c=\"open"),
        vec![pair("a", "1"), pair("text", "two words"), pair("b", ""), pair("c", "open")]
    );
    assert_eq!(kv("key with space=v"), vec![pair("key with space", "v")]);
    assert_eq!(kv("a=1 bare b=2"), vec![pair("a", "1"), pair("bare b", "2")]);
    assert_eq!(kv("a=\"q\"b=2"), vec![pair("a", "q"), pair("b", "2")]);
    assert_eq!(kv("x=1\ty=2"), vec![pair("x", "1"), pair("y", "2")]);
    assert!(kv("").is_empty());
    assert!(kv("   ").is_empty());
    assert!(kv("novalue").is_empty());
    assert_eq!(kv("t=\"\"x y=1"), vec![pair("t", ""), pair("x y", "1")]);
}

#[test]
fn parse_builds_exact_widgets_and_rects() {
    let scene = parse("  label x=+3 y=2 w=7 fg=300 text=a\"b\"\"  \nblock ch= fg=9 x=1 x=5\nblock ch=☃ w=-1 h=0").expect("parse");
    assert_eq!(scene.len(), 3);
    match &scene[0].0 {
        WidgetNode::Label(l) => {
            assert_eq!(l.text, "a\"b");
            assert_eq!(l.fg, 7);
        },
        _ => panic!("expected a label"),
    }
    assert_eq!(scene[0].1, Rect { x: 3, y: 2, w: 7, h: 1 });
    match &scene[1].0 {
        WidgetNode::Block(b) => {
            assert_eq!(b.ch, '#');
            assert_eq!(b.fg, 9);
        },
        _ => panic!("expected a block"),
    }
    assert_eq!(scene[1].1, Rect { x: 1, y: 0, w: 0, h: 1 });
    match &scene[2].0 {
        WidgetNode::Block(b) => assert_eq!(b.ch, '☃'),
        _ => panic!("expected a block"),
    }
    assert_eq!(scene[2].1, Rect { x: 0, y: 0, w: 0, h: 0 });
}

#[test]
fn first_unknown_kind_is_reported() {
    let err = parse("label x=0\nwidget a=1\nother\n").err();
    assert_eq!(err, Some(SceneError::UnknownWidget("widget".to_string())));
    let err = parse("   Label text=hi").err();
    assert_eq!(err, Some(SceneError::UnknownWidget("Label".to_string())));
    assert_eq!(
        SceneError::UnknownWidget("z".into()).to_string(),
        "unknown widget kind: z"
    );
    assert_eq!(
        SceneError::MalformedLine("l".into()).to_string(),
        "malformed scene line: l"
    );
}

#[test]
fn compile_paints_in_order_and_labels_default_to_their_text_width() {
    let src = "block x=0 y=0 w=4 h=2 ch=. fg=1\nlabel x=1 y=1 w=2 text=\"xyz\" fg=2\nlabel x=0 y=0 text=\"shown\"\r\n# block x=0 y=0 w=9 h=9\n";
    let buf = compile(src, 4, 2);
    assert_eq!(snapshot(&buf), "show\n.xy.\n");
    assert_eq!(buf.get(1, 1), Cell::new('x', 2));
    assert_eq!(buf.get(0, 0), Cell::new('s', 7));
    let scene = parse("label x=2 text=\"hello world\"\nlabel w=zz text=ab\nlabel w=1 text=ab").expect("parse");
    assert_eq!(scene[0].1, Rect { x: 2, y: 0, w: 11, h: 1 });
    assert_eq!(scene[1].1, Rect { x: 0, y: 0, w: 2, h: 1 });
    assert_eq!(scene[2].1, Rect { x: 0, y: 0, w: 1, h: 1 });
}

#[test]
fn label_without_width_shows_its_whole_text() {
    let buf = compile("label x=2 y=0 fg=4 text=\"hello world\"", 20, 1);
    assert_eq!(snapshot(&buf), "  hello world       \n");
    assert_eq!(buf.get(2, 0), Cell::new('h', 4));
}

#[test]
fn check_scene_fits_spots_labels_past_the_last_column() {
    assert!(check_scene_fits("label x=3 y=0 w=4 text=\"abc\"\nblock x=18446744073709551615 w=9"));
    assert!(check_scene_fits("label x=18446744073709551615 w=1 text=\"ab\""));
    assert!(check_scene_fits("label x=18446744073709551614 w=2 text=\"ab\""));
    assert!(!check_scene_fits("label x=18446744073709551615 w=2 text=\"ab\""));
    assert!(check_scene_fits("oops x=18446744073709551615 w=2 text=\"ab\""));
    assert!(!check_scene_fits("label x=18446744073709551615 text=\"ab\""));
    assert!(check_scene_fits("label x=18446744073709551615 text=\"a\""));
}

#[test]
fn well_formed_pairs_read_back_and_first_key_wins() {
    assert_eq!(
        parse_kv("x=1 t=\"a b\" y= x=9 "),
        vec![pair("x", "1"), pair("t", "a b"), pair("y", ""), pair("x", "9")]
    );
    let scene = parse("block x=5 x=9 h=a h=3").expect("parse");
    assert_eq!(scene[0].1, Rect { x: 5, y: 0, w: 0, h: 1 });
}

#[test]
fn pairs_split_on_whitespace_runs_and_open_quotes_run_to_the_end() {
    assert_eq!(
        parse_kv("\t a=1 \t  b=\"x  y\"\n c=z   "),
        vec![pair("a", "1"), pair("b", "x  y"), pair("c", "z")]
    );
    assert_eq!(parse_kv("a=1  t=\"ab c"), vec![pair("a", "1"), pair("t", "ab c")]);
    assert_eq!(parse_kv("foo"), vec![]);
    assert_eq!(parse_kv("  foo bar "), vec![]);
}
