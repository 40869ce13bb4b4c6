use switch_display::screen::{Location, Mode, Resolution};
use switch_display::sway::{
    mode_from_sway, output_from_sway, screen_from_sway, SwayError, SwayMode, SwayOutput,
};

/// The outputs of a `swaymsg -t get_outputs` reply, read member by member.
fn decode(reply: &str) -> Vec<SwayOutput> {
    let value: serde_json::Value = serde_json::from_str(reply).unwrap();
    let number = |m: &serde_json::Value, key: &str| -> i32 {
        i32::try_from(m.get(key).unwrap().as_i64().unwrap()).unwrap()
    };
    value
        .as_array()
        .unwrap()
        .iter()
        .map(|o| SwayOutput {
            name: o.get("name").unwrap().as_str().unwrap().to_string(),
            active: o.get("active").unwrap().as_bool().unwrap(),
            modes: o
                .get("modes")
                .unwrap()
                .as_array()
                .unwrap()
                .iter()
                .map(|m| SwayMode {
                    width: number(m, "width"),
                    height: number(m, "height"),
                    refresh: number(m, "refresh"),
                })
                .collect(),
        })
        .collect()
}

#[test]
fn test_get_outputs_output_parses_ok() {
    let screen = screen_from_sway(&decode(TEST_GET_OUTPUTS)).unwrap();

    assert_eq!(screen.outputs.len(), 2);
    assert_eq!(screen.outputs[0].name, "HDMI-A-2");
    assert!(screen.outputs[0].connected);
    assert!(screen.outputs[0].enabled);
    assert_eq!(screen.outputs[0].modes.len(), 35);
    assert_eq!(
        screen.outputs[0].modes[0],
        Mode {
            resolution: Resolution {
                width: 4096,
                height: 2160
            },
            refresh_rate: 30000
        }
    );
    assert_eq!(screen.outputs[1].name, "eDP-1");
    assert!(screen.outputs[1].connected);
    assert!(!screen.outputs[1].enabled);
    assert_eq!(screen.outputs[1].modes.len(), 2);
}

fn sway_output(name: &str, modes: Vec<SwayMode>) -> SwayOutput {
    SwayOutput {
        name: name.to_string(),
        active: true,
        modes,
    }
}

#[test]
fn sway_report_errors() {
    let good = SwayMode {
        width: 1920,
        height: 1080,
        refresh: 60000,
    };
    let bad = SwayMode {
        width: -1,
        height: 2,
        refresh: 3,
    };
    assert_eq!(
        screen_from_sway(&vec![sway_output("Virtual-1", vec![good])]).map(|s| s.outputs.len()),
        Err(SwayError::UnknownOutputName)
    );
    assert_eq!(
        screen_from_sway(&vec![sway_output("eDP-1", vec![good, bad])]).map(|s| s.outputs.len()),
        Err(SwayError::BadNumber)
    );
    assert_eq!(screen_from_sway(&vec![]).map(|s| s.outputs.len()), Ok(0));
}

#[test]
fn sway_output_and_mode_conversion() {
    assert_eq!(
        mode_from_sway(SwayMode {
            width: 1920,
            height: 1080,
            refresh: 60000
        }),
        Some(Mode {
            resolution: Resolution {
                width: 1920,
                height: 1080
            },
            refresh_rate: 60000
        })
    );
    assert_eq!(
        mode_from_sway(SwayMode {
            width: 1920,
            height: 1080,
            refresh: -1
        }),
        None
    );
    let o = output_from_sway("HDMI-A-1", false, vec![]).unwrap();
    assert!(o.connected);
    assert!(!o.enabled);
    assert_eq!(o.location, Location::External);
    assert_eq!(
        output_from_sway("XWAYLAND0", true, vec![]).map(|o| o.name),
        Err(SwayError::UnknownOutputName)
    );
}

const TEST_GET_OUTPUTS: &str = r#"
[
  {
"id": 4,
"type": "output",
"orientation": "none",
"percent": 1.0,
"urgent": false,
"marks": [],
"layout": "output",
"border": "none",
"current_border_width": 0,
"rect": {
  "x": 0,
  "y": 0,
  "width": 1536,
  "height": 864
},
"deco_rect": {
  "x": 0,
  "y": 0,
  "width": 0,
  "height": 0
},
"window_rect": {
  "x": 0,
  "y": 0,
  "width": 0,
  "height": 0
},
"geometry": {
  "x": 0,
  "y": 0,
  "width": 0,
  "height": 0
},
"name": "HDMI-A-2",
"window": null,
"nodes": [],
"floating_nodes": [],
"focus": [
  6
],
"fullscreen_mode": 0,
"sticky": false,
"floating": null,
"scratchpad_state": null,
"primary": false,
"make": "Shenzhen KTC Technology Group",
"model": "49'TV",
"serial": "0x00000001",
"modes": [
  {
    "width": 4096,
    "height": 2160,
    "refresh": 30000,
    "picture_aspect_ratio": "256:135"
  },
  {
    "width": 4096,
    "height": 2160,
    "refresh": 29970,
    "picture_aspect_ratio": "256:135"
  },
  {
    "width": 4096,
    "height": 2160,
    "refresh": 25000,
    "picture_aspect_ratio": "256:135"
  },
  {
    "width": 4096,
    "height": 2160,
    "refresh": 24000,
    "picture_aspect_ratio": "256:135"
  },
  {
    "width": 4096,
    "height": 2160,
    "refresh": 23976,
    "picture_aspect_ratio": "256:135"
  },
  {
    "width": 3840,
    "height": 2160,
    "refresh": 30000,
    "picture_aspect_ratio": "16:9"
  },
  {
    "width": 3840,
    "height": 2160,
    "refresh": 29970,
    "picture_aspect_ratio": "16:9"
  },
  {
    "width": 3840,
    "height": 2160,
    "refresh": 25000,
    "picture_aspect_ratio": "16:9"
  },
  {
    "width": 3840,
    "height": 2160,
    "refresh": 24000,
    "picture_aspect_ratio": "16:9"
  },
  {
    "width": 3840,
    "height": 2160,
    "refresh": 23976,
    "picture_aspect_ratio": "16:9"
  },
  {
    "width": 1920,
    "height": 1080,
    "refresh": 60000,
    "picture_aspect_ratio": "none"
  },
  {
    "width": 1920,
    "height": 1080,
    "refresh": 60000,
    "picture_aspect_ratio": "16:9"
  },
  {
    "width": 1920,
    "height": 1080,
    "refresh": 59940,
    "picture_aspect_ratio": "16:9"
  },
  {
    "width": 1920,
    "height": 1080,
    "refresh": 50000,
    "picture_aspect_ratio": "16:9"
  },
  {
    "width": 1920,
    "height": 1080,
    "refresh": 30000,
    "picture_aspect_ratio": "16:9"
  },
  {
    "width": 1920,
    "height": 1080,
    "refresh": 29970,
    "picture_aspect_ratio": "16:9"
  },
  {
    "width": 1920,
    "height": 1080,
    "refresh": 25000,
    "picture_aspect_ratio": "16:9"
  },
  {
    "width": 1920,
    "height": 1080,
    "refresh": 24000,
    "picture_aspect_ratio": "16:9"
  },
  {
    "width": 1920,
    "height": 1080,
    "refresh": 23976,
    "picture_aspect_ratio": "16:9"
  },
  {
    "width": 1600,
    "height": 900,
    "refresh": 60000,
    "picture_aspect_ratio": "none"
  },
  {
    "width": 1280,
    "height": 1024,
    "refresh": 60020,
    "picture_aspect_ratio": "none"
  },
  {
    "width": 1280,
    "height": 720,
    "refresh": 60000,
    "picture_aspect_ratio": "none"
  },
  {
    "width": 1280,
    "height": 720,
    "refresh": 60000,
    "picture_aspect_ratio": "16:9"
  },
  {
    "width": 1280,
    "height": 720,
    "refresh": 59940,
    "picture_aspect_ratio": "16:9"
  },
  {
    "width": 1280,
    "height": 720,
    "refresh": 50000,
    "picture_aspect_ratio": "16:9"
  },
  {
    "width": 1024,
    "height": 768,
    "refresh": 60004,
    "picture_aspect_ratio": "none"
  },
  {
    "width": 800,
    "height": 600,
    "refresh": 60317,
    "picture_aspect_ratio": "none"
  },
  {
    "width": 720,
    "height": 576,
    "refresh": 50000,
    "picture_aspect_ratio": "16:9"
  },
  {
    "width": 720,
    "height": 576,
    "refresh": 50000,
    "picture_aspect_ratio": "4:3"
  },
  {
    "width": 720,
    "height": 480,
    "refresh": 60000,
    "picture_aspect_ratio": "16:9"
  },
  {
    "width": 720,
    "height": 480,
    "refresh": 60000,
    "picture_aspect_ratio": "4:3"
  },
  {
    "width": 720,
    "height": 480,
    "refresh": 59940,
    "picture_aspect_ratio": "16:9"
  },
  {
    "width": 720,
    "height": 480,
    "refresh": 59940,
    "picture_aspect_ratio": "4:3"
  },
  {
    "width": 640,
    "height": 480,
    "refresh": 60000,
    "picture_aspect_ratio": "4:3"
  },
  {
    "width": 640,
    "height": 480,
    "refresh": 59940,
    "picture_aspect_ratio": "none"
  }
],
"features": {
  "adaptive_sync": false,
  "hdr": false
},
"non_desktop": false,
"active": true,
"dpms": true,
"power": true,
"scale": 1.25,
"scale_filter": "linear",
"transform": "normal",
"adaptive_sync_status": "disabled",
"current_workspace": "2",
"current_mode": {
  "width": 1920,
  "height": 1080,
  "refresh": 60000,
  "picture_aspect_ratio": "none"
},
"max_render_time": 0,
"allow_tearing": false,
"hdr": false,
"focused": true,
"subpixel_hinting": "unknown"
  },
  {
"primary": false,
"make": "Lenovo Group Limited",
"model": "0x40BA",
"serial": "Unknown",
"modes": [
  {
    "width": 1920,
    "height": 1080,
    "refresh": 60020
  },
  {
    "width": 1920,
    "height": 1080,
    "refresh": 48016
  }
],
"features": {
  "adaptive_sync": false,
  "hdr": false
},
"non_desktop": false,
"type": "output",
"name": "eDP-1",
"active": false,
"dpms": false,
"power": false,
"current_workspace": null,
"rect": {
  "x": 0,
  "y": 0,
  "width": 0,
  "height": 0
},
"percent": null
  }
]
"#;
