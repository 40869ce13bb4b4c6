use switch_display::listing::{parse, Parser};
use switch_display::screen::{Location, Mode, Resolution};
use switch_display::xrandr::ParseError;

struct TestCase {
    line: &'static str,
    name: &'static str,
    connected: bool,
    enabled: bool,
    location: Location,
}

fn mode(width: u32, height: u32, refresh_rate: u32) -> Mode {
    Mode {
        resolution: Resolution { width, height },
        refresh_rate,
    }
}

#[test]
fn parse_output_line_must_return_nothing() {
    let parser = Parser::new();
    assert!(parser.parse_output_line(SCREEN_LINE).is_none());
    assert!(parser
        .parse_output_line(ACTIVE_PREFERRED_MODE_LINE)
        .is_none());
    assert!(parser.parse_output_line(ACTIVE_MODE_LINE).is_none());
    assert!(parser.parse_output_line(PREFERRED_MODE_LINE).is_none());
    assert!(parser.parse_output_line(PLAIN_MODE_LINE).is_none());
    for line in VERBOSE_INFO_LINES {
        assert!(parser.parse_output_line(line).is_none());
    }
}

#[test]
fn parse_output_line_must_return_something() {
    let test_cases = [
        TestCase {
            line: CONNECTED_ENABLED_INTERNAL_OUTPUT_LINE,
            name: "eDP-1",
            connected: true,
            enabled: true,
            location: Location::Internal,
        },
        TestCase {
            line: CONNECTED_DISABLED_EXTERNAL_OUTPUT_LINE,
            name: "HDMI-2",
            connected: true,
            enabled: false,
            location: Location::External,
        },
        TestCase {
            line: DISCONNECTED_ENABLED_EXTERNAL_OUTPUT_LINE,
            name: "HDMI-2",
            connected: false,
            enabled: true,
            location: Location::External,
        },
        TestCase {
            line: DISCONNECTED_DISABLED_EXTERNAL_OUTPUT_LINE,
            name: "DP-1",
            connected: false,
            enabled: false,
            location: Location::External,
        },
    ];

    let parser = Parser::new();

    for test_case in test_cases {
        let output = parser.parse_output_line(test_case.line);

        let Some(output) = output else {
            panic!("expected some output");
        };
        assert_eq!(output.name, test_case.name);
        assert_eq!(output.connected, test_case.connected);
        assert_eq!(output.enabled, test_case.enabled);
        assert_eq!(output.location, test_case.location);
    }
}

#[test]
fn parse_mode_line_must_ignore_non_mode_lines() {
    let mut modes = Vec::new();
    let parser = Parser::new();

    parser.parse_mode_line(SCREEN_LINE, &mut modes);
    parser.parse_mode_line(CONNECTED_ENABLED_INTERNAL_OUTPUT_LINE, &mut modes);
    parser.parse_mode_line(CONNECTED_DISABLED_EXTERNAL_OUTPUT_LINE, &mut modes);
    parser.parse_mode_line(DISCONNECTED_ENABLED_EXTERNAL_OUTPUT_LINE, &mut modes);
    parser.parse_mode_line(DISCONNECTED_DISABLED_EXTERNAL_OUTPUT_LINE, &mut modes);
    for line in VERBOSE_INFO_LINES {
        parser.parse_mode_line(line, &mut modes);
    }

    assert!(modes.is_empty());
}

#[test]
fn parse_mode_line_must_parse_active_preferred_mode_line() {
    let mut modes = Vec::new();
    let parser = Parser::new();

    parser.parse_mode_line(ACTIVE_PREFERRED_MODE_LINE, &mut modes);

    assert_eq!(
        modes,
        [
            mode(1920, 1080, 60020),
            mode(1920, 1080, 60010),
            mode(1920, 1080, 59970),
            mode(1920, 1080, 59960),
            mode(1920, 1080, 59930),
            mode(1920, 1080, 48020),
        ]
    );
}

#[test]
fn parse_mode_line_must_parse_active_mode_line() {
    let mut modes = Vec::new();
    let parser = Parser::new();

    parser.parse_mode_line(ACTIVE_MODE_LINE, &mut modes);

    assert_eq!(modes, [mode(1680, 1050, 59950), mode(1680, 1050, 59880)]);
}

#[test]
fn parse_mode_line_must_parse_preferred_mode_line() {
    let mut modes = Vec::new();
    let parser = Parser::new();

    parser.parse_mode_line(PREFERRED_MODE_LINE, &mut modes);

    assert_eq!(
        modes,
        [
            mode(1920, 1080, 60020),
            mode(1920, 1080, 60010),
            mode(1920, 1080, 59970),
            mode(1920, 1080, 59960),
            mode(1920, 1080, 59930),
            mode(1920, 1080, 48020),
        ]
    );
}

#[test]
fn parse_mode_line_must_parse_plain_mode_line() {
    let mut modes = Vec::new();
    let parser = Parser::new();

    parser.parse_mode_line(PLAIN_MODE_LINE, &mut modes);

    assert_eq!(modes, [mode(1680, 1050, 59950), mode(1680, 1050, 59880)]);
}

#[test]
fn parse_mode_line_must_append_to_existing_modes() {
    let mut modes = vec![mode(1, 1, 1)];
    Parser::new().parse_mode_line(PLAIN_MODE_LINE, &mut modes);
    assert_eq!(
        modes,
        [mode(1, 1, 1), mode(1680, 1050, 59950), mode(1680, 1050, 59880)]
    );
}

#[test]
fn parsing_test_parse_output() {
    let parser = Parser::new();

    let screen = parser.parse(TEST_OUTPUT).unwrap();

    assert_eq!(screen.outputs.len(), 5);
    assert_eq!(screen.outputs[0].name, "eDP-1");
    assert!(screen.outputs[0].connected);
    assert!(screen.outputs[0].enabled);
    assert_eq!(screen.outputs[0].modes.len(), 83);
    assert_eq!(screen.outputs[1].name, "DP-1");
    assert!(!screen.outputs[1].connected);
    assert!(!screen.outputs[1].enabled);
    assert!(screen.outputs[1].modes.is_empty());
    assert_eq!(screen.outputs[2].name, "HDMI-1");
    assert!(!screen.outputs[2].connected);
    assert!(screen.outputs[2].enabled);
    assert!(screen.outputs[2].modes.is_empty());
    assert_eq!(screen.outputs[3].name, "DP-2");
    assert!(!screen.outputs[3].connected);
    assert!(!screen.outputs[3].enabled);
    assert!(screen.outputs[3].modes.is_empty());
    assert_eq!(screen.outputs[4].name, "HDMI-2");
    assert!(screen.outputs[4].connected);
    assert!(!screen.outputs[4].enabled);
    assert_eq!(screen.outputs[4].modes.len(), 30);
}

#[test]
fn parse_free_function_matches_parser() {
    let a = parse(TEST_OUTPUT).unwrap();
    let b = Parser::new().parse(TEST_OUTPUT).unwrap();
    assert_eq!(a, b);
}

#[test]
fn parse_rejects_unknown_output_and_huge_numbers() {
    assert_eq!(
        parse("Virtual-1 connected (normal)\n").map(|s| s.outputs.len()),
        Err(ParseError::UnknownOutputName)
    );
    assert_eq!(
        parse("eDP-1 connected (normal)\n   99999999999x1080     60.00  \n").map(|s| s.outputs.len()),
        Err(ParseError::NumberTooLarge)
    );
    // Mode lines before any output line are not read at all.
    assert_eq!(
        parse("   99999999999x1080     60.00  \neDP-1 connected (n)\n")
            .map(|s| s.outputs.len()),
        Ok(1)
    );
}

#[test]
fn parse_handles_crlf_line_ends() {
    let screen = parse("eDP-1 connected (n)\r\n   640x480     60.00  \r\n").unwrap();
    assert_eq!(screen.outputs.len(), 1);
    assert_eq!(screen.outputs[0].modes, [mode(640, 480, 60000)]);
}

#[test]
fn output_line_without_trailing_space_after_geometry_is_off() {
    // The geometry only counts when whitespace follows it.
    let parser = Parser::new();
    let output = parser.parse_output_line("DP-1 connected 1920x1080+0+0").unwrap_or_else(|| {
        panic!("expected some output")
    });
    assert!(!output.enabled);
    let output = parser
        .parse_output_line("DP-1 connected primary 1920x1080+0+0 (normal)")
        .unwrap();
    assert!(output.enabled);
}

const SCREEN_LINE: &str =
    "Screen 0: minimum 320 x 200, current 1920 x 1080, maximum 16384 x 16384";

const CONNECTED_ENABLED_INTERNAL_OUTPUT_LINE: &str = "eDP-1 connected primary 1920x1080+0+0 (normal left inverted right x axis y axis) 344mm x 194mm";
const CONNECTED_DISABLED_EXTERNAL_OUTPUT_LINE: &str =
    "HDMI-2 connected (normal left inverted right x axis y axis)";
const DISCONNECTED_ENABLED_EXTERNAL_OUTPUT_LINE: &str =
    "HDMI-2 disconnected 1920x1080+0+0 (normal left inverted right x axis y axis) 0mm x 0mm";
const DISCONNECTED_DISABLED_EXTERNAL_OUTPUT_LINE: &str =
    "DP-1 disconnected (normal left inverted right x axis y axis)";

const ACTIVE_PREFERRED_MODE_LINE: &str =
    "   1920x1080     60.02*+  60.01    59.97    59.96    59.93    48.02  ";
const ACTIVE_MODE_LINE: &str = "   1680x1050     59.95*   59.88  ";
const PREFERRED_MODE_LINE: &str =
    "   1920x1080     60.02 +  60.01    59.97    59.96    59.93    48.02  ";
const PLAIN_MODE_LINE: &str = "   1680x1050     59.95    59.88  ";
const VERBOSE_INFO_LINES: [&str; 3] = [
    "  1920x1080 (0x501) 148.500MHz +HSync +VSync ",
    "        h: width  1920 start 2008 end 2052 total 2200 skew    0 clock  67.50KHz ",
    "        v: height 1080 start 1084 end 1089 total 1125           clock  60.00Hz ",
];

const TEST_OUTPUT: &str = r#"
Screen 0: minimum 320 x 200, current 1920 x 1080, maximum 16384 x 16384
eDP-1 connected primary 1920x1080+0+0 (normal left inverted right x axis y axis) 344mm x 194mm
   1920x1080     60.02*+  60.01    59.97    59.96    59.93    48.02  
   1680x1050     59.95    59.88  
   1400x1050     59.98  
   1600x900      59.99    59.94    59.95    59.82  
   1280x1024     60.02  
   1400x900      59.96    59.88  
   1280x960      60.00  
   1440x810      60.00    59.97  
   1368x768      59.88    59.85  
   1280x800      59.99    59.97    59.81    59.91  
   1280x720      60.00    59.99    59.86    59.74  
   1024x768      60.04    60.00  
   960x720       60.00  
   928x696       60.05  
   896x672       60.01  
   1024x576      59.95    59.96    59.90    59.82  
   960x600       59.93    60.00  
   960x540       59.96    59.99    59.63    59.82  
   800x600       60.00    60.32    56.25  
   840x525       60.01    59.88  
   864x486       59.92    59.57  
   700x525       59.98  
   800x450       59.95    59.82  
   640x512       60.02  
   700x450       59.96    59.88  
   640x480       60.00    59.94  
   720x405       59.51    58.99  
   684x384       59.88    59.85  
   640x400       59.88    59.98  
   640x360       59.86    59.83    59.84    59.32  
   512x384       60.00  
   512x288       60.00    59.92  
   480x270       59.63    59.82  
   400x300       60.32    56.34  
   432x243       59.92    59.57  
   320x240       60.05  
   360x202       59.51    59.13  
   320x180       59.84    59.32  
DP-1 disconnected (normal left inverted right x axis y axis)
HDMI-1 disconnected 1920x1080+0+0 (normal left inverted right x axis y axis) 0mm x 0mm
  1920x1080 (0x501) 148.500MHz +HSync +VSync
    h: width  1920 start 2008 end 2052 total 2200 skew    0 clock  67.50KHz
    v: height 1080 start 1084 end 1089 total 1125           clock  60.00Hz
DP-2 disconnected (normal left inverted right x axis y axis)
HDMI-2 connected (normal left inverted right x axis y axis)
   4096x2160     30.00    25.00    24.00    29.97    23.98  
   3840x2160     30.00    25.00    24.00    29.97    23.98  
   1920x1080     60.00    50.00    59.94    30.00    25.00    24.00    29.97    23.98  
   1920x1080i    60.00    50.00    59.94  
   1600x900      60.00  
   1280x1024     60.02  
   1280x720      60.00    50.00    59.94  
   1024x768      60.00  
   800x600       60.32  
   720x576       50.00  
   720x576i      50.00  
   720x480       60.00    59.94  
   720x480i      60.00    59.94  
   640x480       60.00    59.94  
"#;
