use simple_machine::gcode::{parse, parse_line, GCode};

#[test]
fn test_without_params() {
    {
        let input = "N11 X0";

        let result = parse_line(0, input).unwrap();

        assert_eq!(11, result.0);
        assert_eq!(
            vec![GCode {
                command: 'X',
                major: 0,
                minor: 0,
                text_value: None
            }],
            result.1
        );
    }
}

#[test]
fn test_with_one_param() {
    {
        let input = "N13 G0 X1.2";

        let result = parse_line(0, input).unwrap();

        assert_eq!(13, result.0);
        assert_eq!(
            vec![
                GCode {
                    command: 'G',
                    major: 0,
                    minor: 0,
                    text_value: None
                },
                GCode {
                    command: 'X',
                    major: 1,
                    minor: 200_000,
                    text_value: None
                }
            ],
            result.1
        );
    }
}

#[test]
fn test_comments() {
    {
        let input = "%N11 X0";

        let result = parse_line(0, input);

        assert_eq!(None, result);
    }
    {
        let input = ";N11 X0";

        let result = parse_line(0, input);

        assert_eq!(None, result);
    }
    {
        let input = "; N11 X0";

        let result = parse_line(0, input);

        assert_eq!(None, result);
    }
    {
        let input = "N13 X2.2 ;N11 X0";

        let result = parse_line(0, input).unwrap();

        assert_eq!(13, result.0);
        assert_eq!(
            vec![GCode {
                command: 'X',
                major: 2,
                minor: 200_000,
                text_value: None
            }],
            result.1
        );
    }
    {
        let input = "O49(df)68 (dff (sdf) ) (OPTIONAL COMMENT) ; .";

        let result = parse_line(0, input).unwrap();

        assert_eq!(0, result.0);
        assert_eq!(
            vec![GCode {
                command: 'O',
                major: 4968,
                minor: 0,
                text_value: None
            }],
            result.1
        );
    }
}

#[test]
fn comment_suffix_is_ignored() {
    let with = parse_line(0, "G1 X1.5 Y2; anything at all )( %");
    let without = parse_line(0, "G1 X1.5 Y2");
    assert_eq!(with, without);
}

#[test]
fn leading_paren_comment_is_ignored() {
    let with = parse_line(7, "(warm up) G1 X1.5");
    let without = parse_line(7, "G1 X1.5");
    assert_eq!(with, without);
}

#[test]
fn negative_and_signed_values() {
    let result = parse_line(0, "G1 X-0.03 Y+0.03 Z-2.5").unwrap();
    let block = result.1;
    assert_eq!('X', block[1].command);
    assert_eq!(0, block[1].major);
    assert_eq!(-30_000, block[1].minor);
    assert_eq!(0, block[2].major);
    assert_eq!(30_000, block[2].minor);
    assert_eq!(-2, block[3].major);
    assert_eq!(-500_000, block[3].minor);
}

#[test]
fn malformed_numbers_default_to_zero() {
    let result = parse_line(0, "Q G1.2.3 X.5 Y5. Z- Ebad").unwrap();
    let block = result.1;
    // bare letter
    assert_eq!(('Q', 0, 0), (block[0].command, block[0].major, block[0].minor));
    // two dots: fractional part refused
    assert_eq!(('G', 1, 0), (block[1].command, block[1].major, block[1].minor));
    // empty integer part
    assert_eq!(('X', 0, 500_000), (block[2].command, block[2].major, block[2].minor));
    // empty fractional part
    assert_eq!(('Y', 5, 0), (block[3].command, block[3].major, block[3].minor));
    // bare sign
    assert_eq!(('Z', 0, 0), (block[4].command, block[4].major, block[4].minor));
    // letters in the number
    assert_eq!(('E', 0, 0), (block[5].command, block[5].major, block[5].minor));
}

#[test]
fn major_overflow_defaults_to_zero() {
    let result = parse_line(0, "X99999999999").unwrap();
    assert_eq!(0, result.1[0].major);
    let edge = parse_line(0, "X2147483647 Y-2147483648").unwrap();
    assert_eq!(2147483647, edge.1[0].major);
    assert_eq!(-2147483648, edge.1[1].major);
}

#[test]
fn fractional_digits_beyond_six_are_truncated() {
    let result = parse_line(0, "X0.1234567").unwrap();
    assert_eq!(123_456, result.1[0].minor);
}

#[test]
fn empty_lines_and_blank_blocks_are_skipped() {
    assert_eq!(None, parse_line(0, ""));
    assert_eq!(None, parse_line(0, "   "));
    assert_eq!(None, parse_line(0, "(only a comment)"));
    assert_eq!(None, parse_line(0, "N5"));
}

#[test]
fn program_line_numbering() {
    let program = parse("G1 X1\n; comment only\nG1 X2\nN9 G1 X3\nG1 X4");
    // accepted lines count 0, 1 for the first two blocks; N9 overrides; the
    // counter still advances per accepted line
    assert!(program.contains_key(&0));
    assert!(program.contains_key(&1));
    assert!(program.contains_key(&9));
    assert!(program.contains_key(&3));
    assert_eq!(4, program.len());
}

#[test]
fn only_a_leading_n_token_sets_the_line_number() {
    let result = parse_line(3, "G1 N5 X2").unwrap();
    assert_eq!(3, result.0);
    // the stray N token is kept as an ordinary parameter word
    assert_eq!('N', result.1[1].command);
    assert_eq!(5, result.1[1].major);
}

#[test]
fn duplicate_line_numbers_overwrite() {
    let program = parse("N5 G1 X1\nN5 G1 X2");
    assert_eq!(1, program.len());
    let block = program.get(&5).unwrap();
    assert_eq!(2, block[1].major);
}

#[test]
fn crlf_lines_parse_like_lf() {
    let a = parse("G1 X1\r\nG1 X2\r\n");
    let b = parse("G1 X1\nG1 X2");
    assert_eq!(a.len(), b.len());
    assert_eq!(a.get(&0).unwrap(), b.get(&0).unwrap());
    assert_eq!(a.get(&1).unwrap(), b.get(&1).unwrap());
}
