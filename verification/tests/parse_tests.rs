use gcodeplot::fixed::Fixed;
use gcodeplot::gcode::{CommentlessGCodeExpr, GCodeExpr};
use gcodeplot::parse::{parse_gcode_file, parse_gcode_file_commentless, ParseErrorKind};
use gcodeplot::serialize::{resave_content, serialize_commands};
use gcodeplot::transform::{transform, transform_checked};

fn fx(raw: i64) -> Fixed {
    Fixed::from_raw(raw)
}

#[test]
fn parses_two_moves() {
    let cmds = parse_gcode_file_commentless("G0 X10 Y0\nG1 X10 Y10\n").unwrap();
    assert_eq!(
        cmds,
        vec![
            (0, CommentlessGCodeExpr::Move { x: fx(10_000), y: fx(0) }),
            (1, CommentlessGCodeExpr::LinMove { x: fx(10_000), y: fx(10_000) }),
        ]
    );
}

#[test]
fn transform_scales_then_translates() {
    let cmds = parse_gcode_file("G0 X10 Y0\nG1 X10 Y10\n").unwrap();
    let out = transform(&cmds, (fx(1_000), fx(1_000)), fx(2_000));
    let expect = vec![
        (
            0usize,
            GCodeExpr::Code(CommentlessGCodeExpr::Move { x: fx(21_000), y: fx(1_000) }),
        ),
        (
            1usize,
            GCodeExpr::Code(CommentlessGCodeExpr::LinMove { x: fx(21_000), y: fx(21_000) }),
        ),
    ];
    assert_eq!(out, expect);
}

#[test]
fn transform_composes_with_whole_unit_scales() {
    let cmds = parse_gcode_file("G2 X3 Y-4 I1 J0.5\nG0 X0.001 Y9\n").unwrap();
    let once = transform(&cmds, (fx(7_000), fx(-2_000)), fx(3_000));
    let twice = transform(&once, (fx(500), fx(1_000)), fx(2_000));
    // combined: scale = 3 * 2, translate = (7, -2) * 2 + (0.5, 1)
    let combined = transform(&cmds, (fx(14_500), fx(-3_000)), fx(6_000));
    assert_eq!(twice, combined);
}

#[test]
fn missing_y_fails_whole_parse() {
    let err = parse_gcode_file("G1 X10").unwrap_err();
    assert_eq!(err.line, 0);
    assert_eq!(err.col, 0);
    assert_eq!(err.kind, ParseErrorKind::MissingParameter);
    // no commands come back for a file whose later line is malformed
    let err = parse_gcode_file("G0 X1 Y2\nG1 X10\n").unwrap_err();
    assert_eq!(err.line, 1);
    assert_eq!(err.kind, ParseErrorKind::MissingParameter);
}

#[test]
fn unknown_head_is_unexpected_token() {
    let err = parse_gcode_file("Q7 X1").unwrap_err();
    assert_eq!(err.line, 0);
    assert_eq!(err.col, 0);
    assert_eq!(err.kind, ParseErrorKind::UnexpectedToken);
}

#[test]
fn disallowed_parameter_is_unexpected_token() {
    let err = parse_gcode_file("G0 X1 Y2 I3").unwrap_err();
    assert_eq!((err.line, err.col), (0, 9));
    assert_eq!(err.kind, ParseErrorKind::UnexpectedToken);
}

#[test]
fn malformed_number_is_reported_at_its_token() {
    let err = parse_gcode_file("G0 Xa Y1").unwrap_err();
    assert_eq!((err.line, err.col), (0, 3));
    assert_eq!(err.kind, ParseErrorKind::MalformedNumber);
}

#[test]
fn out_of_range_number_is_malformed() {
    let err = parse_gcode_file("G0 X99999999999999 Y0").unwrap_err();
    assert_eq!(err.kind, ParseErrorKind::MalformedNumber);
}

#[test]
fn pen_needs_p0() {
    let err = parse_gcode_file("M280 P1 S50").unwrap_err();
    assert_eq!((err.line, err.col), (0, 5));
    assert_eq!(err.kind, ParseErrorKind::UnexpectedToken);
    let err = parse_gcode_file("M280 S50").unwrap_err();
    assert_eq!(err.kind, ParseErrorKind::MissingParameter);
}

#[test]
fn pen_threshold_is_forty() {
    let cmds = parse_gcode_file_commentless("M280 P0 S50\nM280 P0 S40\nM280 P0 S39.999\n")
        .unwrap();
    assert_eq!(
        cmds,
        vec![
            (0, CommentlessGCodeExpr::Pen(true)),
            (1, CommentlessGCodeExpr::Pen(true)),
            (2, CommentlessGCodeExpr::Pen(false)),
        ]
    );
}

#[test]
fn comments_are_preserved_or_stripped() {
    let text = "G28 ;going home\n;full comment line\nM280 P0 S50";
    let kept = parse_gcode_file(text).unwrap();
    assert_eq!(
        kept,
        vec![
            (0, GCodeExpr::Code(CommentlessGCodeExpr::Home)),
            (0, GCodeExpr::Comment("going home".to_string())),
            (1, GCodeExpr::Comment("full comment line".to_string())),
            (2, GCodeExpr::Code(CommentlessGCodeExpr::Pen(true))),
        ]
    );
    let stripped = parse_gcode_file_commentless(text).unwrap();
    assert_eq!(
        stripped,
        vec![(0, CommentlessGCodeExpr::Home), (2, CommentlessGCodeExpr::Pen(true))]
    );
}

#[test]
fn blank_lines_keep_numbering() {
    let cmds = parse_gcode_file_commentless("G28\n\n  \nG0 X1 Y2\n").unwrap();
    assert_eq!(cmds[0].0, 0);
    assert_eq!(cmds[1].0, 3);
}

#[test]
fn crlf_line_endings_parse() {
    let cmds = parse_gcode_file_commentless("G0 X1 Y2\r\nG28\r\n").unwrap();
    assert_eq!(
        cmds,
        vec![
            (0, CommentlessGCodeExpr::Move { x: fx(1_000), y: fx(2_000) }),
            (1, CommentlessGCodeExpr::Home),
        ]
    );
}

#[test]
fn number_forms() {
    let cmds = parse_gcode_file_commentless("G0 X.5 Y-0.125\nG0 X+3 Y2.\nG0 X1.2345 Y0\n")
        .unwrap();
    assert_eq!(cmds[0].1, CommentlessGCodeExpr::Move { x: fx(500), y: fx(-125) });
    assert_eq!(cmds[1].1, CommentlessGCodeExpr::Move { x: fx(3_000), y: fx(2_000) });
    // fractional digits beyond thousandths are truncated
    assert_eq!(cmds[2].1, CommentlessGCodeExpr::Move { x: fx(1_234), y: fx(0) });
}

#[test]
fn last_parameter_wins() {
    let cmds = parse_gcode_file_commentless("G0 X1 X2 Y3\n").unwrap();
    assert_eq!(cmds[0].1, CommentlessGCodeExpr::Move { x: fx(2_000), y: fx(3_000) });
}

#[test]
fn several_commands_on_one_line() {
    let text = "G28 G0 X1 Y2 M280 P0 S0";
    let cmds = parse_gcode_file_commentless(text).unwrap();
    assert_eq!(
        cmds,
        vec![
            (0, CommentlessGCodeExpr::Home),
            (0, CommentlessGCodeExpr::Move { x: fx(1_000), y: fx(2_000) }),
            (0, CommentlessGCodeExpr::Pen(false)),
        ]
    );
}

#[test]
fn round_trip_every_variant() {
    let cases = vec![
        GCodeExpr::Code(CommentlessGCodeExpr::Home),
        GCodeExpr::Code(CommentlessGCodeExpr::Move { x: fx(10_500), y: fx(-250) }),
        GCodeExpr::Code(CommentlessGCodeExpr::LinMove { x: fx(0), y: fx(999) }),
        GCodeExpr::Code(CommentlessGCodeExpr::Arc {
            clkw: true,
            x: fx(-1_000),
            y: fx(2_020),
            i: fx(3),
            j: fx(-4_000),
        }),
        GCodeExpr::Code(CommentlessGCodeExpr::Arc {
            clkw: false,
            x: fx(7_000),
            y: fx(0),
            i: fx(-500),
            j: fx(100),
        }),
        GCodeExpr::Code(CommentlessGCodeExpr::Pen(true)),
        GCodeExpr::Code(CommentlessGCodeExpr::Pen(false)),
        GCodeExpr::Comment("hello; world".to_string()),
    ];
    for c in cases {
        let text = c.as_str();
        let back = parse_gcode_file(&text).unwrap();
        assert_eq!(back.len(), 1, "round trip of {text}");
        assert_eq!(back[0].0, 0);
        assert_eq!(back[0].1, c, "round trip of {text}");
    }
}

#[test]
fn canonical_texts() {
    assert_eq!(CommentlessGCodeExpr::Home.as_str(), "G28");
    assert_eq!(
        CommentlessGCodeExpr::Move { x: fx(10_500), y: fx(-250) }.as_str(),
        "G0 X10.5 Y-0.25"
    );
    assert_eq!(
        CommentlessGCodeExpr::Arc { clkw: true, x: fx(0), y: fx(10_000), i: fx(0), j: fx(5_000) }
            .as_str(),
        "G2 X0 Y10 I0 J5"
    );
    assert_eq!(CommentlessGCodeExpr::Pen(true).as_str(), "M280 P0 S50");
    assert_eq!(CommentlessGCodeExpr::Pen(false).as_str(), "M280 P0 S0");
    assert_eq!(GCodeExpr::Comment("hi".to_string()).as_str(), ";hi");
}

#[test]
fn serialize_keeps_line_grouping() {
    let cmds = vec![
        (0usize, GCodeExpr::Code(CommentlessGCodeExpr::Home)),
        (
            0usize,
            GCodeExpr::Code(CommentlessGCodeExpr::Move { x: fx(1_000), y: fx(2_000) }),
        ),
        (0usize, GCodeExpr::Comment("first line".to_string())),
        (
            2usize,
            GCodeExpr::Code(CommentlessGCodeExpr::LinMove { x: fx(3_000), y: fx(4_000) }),
        ),
    ];
    let text = serialize_commands(&cmds);
    assert_eq!(text, "G28 G0 X1 Y2 ;first line\nG1 X3 Y4");
    // the serialized file parses back to the same commands
    let back = parse_gcode_file(&text).unwrap();
    assert_eq!(back[0], (0, GCodeExpr::Code(CommentlessGCodeExpr::Home)));
    assert_eq!(back.len(), 4);
    assert_eq!(back[3].1, cmds[3].1);
}

#[test]
fn resave_appends_after_separator() {
    let content = resave_content(
        "G28",
        &vec![
            CommentlessGCodeExpr::Pen(true),
            CommentlessGCodeExpr::LinMove { x: fx(1_000), y: fx(1_000) },
        ],
    );
    assert_eq!(content, "G28\n; added by gcodeplot\nM280 P0 S50\nG1 X1 Y1");
}

#[test]
fn empty_file_parses_to_nothing() {
    assert_eq!(parse_gcode_file("").unwrap(), vec![]);
}

#[test]
fn transform_checked_rejects_overflow() {
    let cmds = vec![(
        0usize,
        GCodeExpr::Code(CommentlessGCodeExpr::Move {
            x: fx(i64::MAX / 2),
            y: fx(0),
        }),
    )];
    // scaling half the raw range by a million units cannot fit
    assert!(transform_checked(&cmds, (fx(0), fx(0)), fx(1_000_000_000)).is_none());
    // a harmless transform goes through unchanged paths
    let out = transform_checked(&cmds, (fx(500), fx(0)), fx(1_000)).unwrap();
    assert_eq!(
        out[0].1,
        GCodeExpr::Code(CommentlessGCodeExpr::Move { x: fx(i64::MAX / 2 + 500), y: fx(0) })
    );
}

#[test]
fn serialize_starts_later_lines_with_newlines() {
    let cmds = vec![(2usize, GCodeExpr::Code(CommentlessGCodeExpr::Home))];
    // the line index changed from the implicit 0, so a newline is written
    assert_eq!(serialize_commands(&cmds), "\nG28");
}
