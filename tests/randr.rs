use switch_display::allocator::{is_consistent, update_crtcs};
use switch_display::randr::{
    choose_best_mode, compute_refresh_rate_millihz, compute_screen_size, is_admissible, px_to_mm,
    randr_mode_to_mode, randr_mode_to_resolution, randr_output_to_output, screen_from_outputs,
    CrtcInfo, ModeInfo, OutputInfo, RandrError, ScreenSize, MODE_FLAG_DOUBLE_SCAN, ROTATE_0,
};
use switch_display::screen::{Location, Mode, Output, Resolution, Screen};
use switch_display::switch::SwitchPlan;

fn timed_mode(id: u32, width: u16, height: u16) -> ModeInfo {
    ModeInfo {
        id,
        width,
        height,
        dot_clock: 138700000,
        htotal: 2080,
        vtotal: 1111,
        ..Default::default()
    }
}

#[test]
fn test_randr_output_to_output_on_internal_connected_enabled_output() {
    let randr_output = OutputInfo {
        crtc: 42,
        connected: true,
        modes: vec![1, 2],
        name: "eDP-1".to_string(),
        ..Default::default()
    };
    let modes = vec![
        timed_mode(1, 1920, 1080),
        ModeInfo {
            mode_flags: MODE_FLAG_DOUBLE_SCAN,
            ..timed_mode(2, 3840, 2160)
        },
    ];

    let output = randr_output_to_output(&randr_output, &modes);

    assert_eq!(
        output,
        Ok(Output {
            name: "eDP-1".to_owned(),
            enabled: true,
            connected: true,
            modes: vec![Mode {
                resolution: Resolution {
                    width: 1920,
                    height: 1080,
                },
                refresh_rate: 60020,
            }],
            location: Location::Internal,
        })
    );
}

#[test]
fn test_randr_output_to_output_on_external_disconnected_output() {
    let randr_output = OutputInfo {
        connected: false,
        name: "HDMI-1".to_string(),
        ..Default::default()
    };
    let modes = Vec::new();

    let output = randr_output_to_output(&randr_output, &modes);

    assert_eq!(
        output,
        Ok(Output {
            name: "HDMI-1".to_owned(),
            enabled: false,
            connected: false,
            modes: Vec::new(),
            location: Location::External,
        })
    );
}

#[test]
fn randr_output_to_output_errors() {
    let modes = vec![timed_mode(1, 1920, 1080)];
    let unknown_name = OutputInfo {
        name: "Virtual-1".to_string(),
        modes: vec![1],
        ..Default::default()
    };
    assert_eq!(
        randr_output_to_output(&unknown_name, &modes),
        Err(RandrError::UnknownOutputName)
    );
    let unknown_mode = OutputInfo {
        name: "eDP-1".to_string(),
        modes: vec![1, 7],
        ..Default::default()
    };
    assert_eq!(
        randr_output_to_output(&unknown_mode, &modes),
        Err(RandrError::UnknownMode)
    );
    let fast = vec![ModeInfo {
        id: 1,
        dot_clock: u32::MAX,
        htotal: 1,
        vtotal: 1,
        ..Default::default()
    }];
    let too_fast = OutputInfo {
        name: "eDP-1".to_string(),
        modes: vec![1],
        ..Default::default()
    };
    assert_eq!(
        randr_output_to_output(&too_fast, &fast),
        Err(RandrError::RefreshRateTooLarge)
    );
}

#[test]
fn screen_from_outputs_keeps_order() {
    let modes = vec![timed_mode(1, 1920, 1080)];
    let outputs = vec![
        OutputInfo {
            id: 10,
            crtc: 20,
            connected: true,
            modes: vec![1],
            name: "eDP-1".to_string(),
            ..Default::default()
        },
        OutputInfo {
            id: 11,
            name: "HDMI-1".to_string(),
            ..Default::default()
        },
    ];
    let screen = screen_from_outputs(&outputs, &modes).unwrap();
    assert_eq!(screen.outputs.len(), 2);
    assert_eq!(screen.outputs[0].name, "eDP-1");
    assert!(screen.outputs[0].enabled);
    assert_eq!(screen.outputs[0].modes.len(), 1);
    assert_eq!(screen.outputs[1].name, "HDMI-1");
    assert!(!screen.outputs[1].connected);
}

#[test]
fn test_is_admissible() {
    assert!(is_admissible(&ModeInfo {
        ..Default::default()
    }));
    assert!(!is_admissible(&ModeInfo {
        mode_flags: MODE_FLAG_DOUBLE_SCAN,
        ..Default::default()
    }));
}

#[test]
fn test_randr_mode_to_mode() {
    assert_eq!(
        randr_mode_to_mode(&ModeInfo {
            width: 1920,
            height: 1080,
            dot_clock: 138700000,
            htotal: 2080,
            vtotal: 1111,
            ..Default::default()
        }),
        Mode {
            resolution: Resolution {
                width: 1920,
                height: 1080,
            },
            refresh_rate: 60020,
        }
    );
}

#[test]
fn test_randr_mode_to_resolution() {
    assert_eq!(
        randr_mode_to_resolution(&ModeInfo {
            width: 640,
            height: 480,
            ..Default::default()
        }),
        Resolution {
            width: 640,
            height: 480
        }
    );
}

#[test]
fn test_compute_refresh_rate_millihz() {
    assert_eq!(
        compute_refresh_rate_millihz(&ModeInfo {
            dot_clock: 138700000,
            htotal: 2080,
            vtotal: 1111,
            ..Default::default()
        }),
        60020
    );
    assert_eq!(
        compute_refresh_rate_millihz(&ModeInfo {
            dot_clock: 138700000,
            htotal: 0,
            vtotal: 1111,
            ..Default::default()
        }),
        0
    );
    assert_eq!(
        compute_refresh_rate_millihz(&ModeInfo {
            dot_clock: 138700000,
            htotal: 2080,
            vtotal: 0,
            ..Default::default()
        }),
        0
    );
}

fn update_fixture() -> (Vec<ModeInfo>, Vec<OutputInfo>, Vec<CrtcInfo>) {
    let modes = vec![timed_mode(1, 1920, 1080)];
    let output = |id: u32, crtc: u32, connected: bool, name: &str| OutputInfo {
        id,
        crtc,
        connected,
        crtcs: vec![20, 21, 22],
        modes: vec![1],
        name: name.to_string(),
        ..Default::default()
    };
    let outputs = vec![
        output(10, 20, true, "eDP-1"),
        output(11, 0, false, "HDMI-1"),
        output(12, 0, true, "HDMI-2"),
        output(13, 21, true, "HDMI-3"),
        output(14, 22, true, "HDMI-4"),
    ];
    let crtcs = vec![
        CrtcInfo {
            id: 20,
            mode: 1,
            outputs: vec![10],
            ..Default::default()
        },
        CrtcInfo {
            id: 21,
            x: 10,
            y: 20,
            mode: 1,
            rotation: 2,
            outputs: vec![13],
        },
        CrtcInfo {
            id: 22,
            mode: 1,
            outputs: vec![14],
            ..Default::default()
        },
    ];
    (modes, outputs, crtcs)
}

#[test]
fn test_update_crtcs() {
    let (modes, mut randr_outputs, mut crtcs) = update_fixture();
    let resolution = None;
    let screen = Screen {
        outputs: randr_outputs[0..4]
            .iter()
            .map(|o| randr_output_to_output(o, &modes).unwrap())
            .collect(),
    };
    let switch_plan = SwitchPlan {
        outputs_to_disable: vec![0, 1],
        outputs_to_enable: vec![2, 3],
    };

    let result = update_crtcs(
        &screen,
        &switch_plan,
        resolution,
        &modes,
        &mut randr_outputs,
        &mut crtcs,
    );

    assert_eq!(result, Ok(()));
    assert_eq!(randr_outputs[0].crtc, 0);
    assert_eq!(randr_outputs[1].crtc, 0);
    assert_eq!(randr_outputs[2].crtc, 20);
    assert_eq!(randr_outputs[3].crtc, 21);
    assert_eq!(randr_outputs[4].crtc, 22);

    let crtc1 = &crtcs[0];
    assert_eq!(crtc1.outputs.as_slice(), [12]);

    let crtc2 = &crtcs[1];
    assert_eq!(crtc2.outputs.as_slice(), [13]);
    assert_eq!(crtc2.x, 0);
    assert_eq!(crtc2.y, 0);
    assert_eq!(crtc2.mode, 1);
    assert_eq!(crtc2.rotation, ROTATE_0);

    assert!(is_consistent(&modes, &randr_outputs, &crtcs));
}

#[test]
fn update_crtcs_without_free_crtc_fails() {
    let (mut modes, mut randr_outputs, mut crtcs) = update_fixture();
    modes[0].mode_flags = MODE_FLAG_DOUBLE_SCAN;
    let screen = Screen {
        outputs: randr_outputs
            .iter()
            .map(|o| randr_output_to_output(o, &modes).unwrap())
            .collect(),
    };
    // HDMI-2 must be turned on but every controller stays busy; the search
    // for a controller fails before any mode is looked at.
    let switch_plan = SwitchPlan {
        outputs_to_disable: vec![],
        outputs_to_enable: vec![2],
    };
    assert_eq!(
        update_crtcs(&screen, &switch_plan, None, &modes, &mut randr_outputs, &mut crtcs),
        Err(RandrError::NoFreeCrtc)
    );
}

#[test]
fn update_crtcs_rejects_inconsistent_state() {
    let (modes, mut randr_outputs, mut crtcs) = update_fixture();
    // Controller 22 forgets output 14, which still points at it.
    crtcs[2].outputs.clear();
    crtcs[2].mode = 0;
    assert!(!is_consistent(&modes, &randr_outputs, &crtcs));
    let screen = Screen { outputs: vec![] };
    let switch_plan = SwitchPlan {
        outputs_to_disable: vec![],
        outputs_to_enable: vec![],
    };
    assert_eq!(
        update_crtcs(&screen, &switch_plan, None, &modes, &mut randr_outputs, &mut crtcs),
        Err(RandrError::Inconsistent)
    );
}

#[test]
fn update_crtcs_without_usable_mode_fails() {
    let (mut modes, mut randr_outputs, mut crtcs) = update_fixture();
    modes[0].mode_flags = MODE_FLAG_DOUBLE_SCAN;
    let screen = Screen {
        outputs: vec![Output {
            name: "HDMI-3".to_string(),
            connected: true,
            enabled: true,
            modes: vec![],
            location: Location::External,
        }],
    };
    let switch_plan = SwitchPlan {
        outputs_to_disable: vec![],
        outputs_to_enable: vec![0],
    };
    // HDMI-3 keeps its controller, but its only mode is line-doubled and
    // not preferred.
    assert_eq!(
        update_crtcs(&screen, &switch_plan, None, &modes, &mut randr_outputs, &mut crtcs),
        Err(RandrError::NoUsableMode)
    );
}

#[test]
fn update_crtcs_with_resolution_sets_matching_mode() {
    let (mut modes, mut randr_outputs, mut crtcs) = update_fixture();
    modes.push(timed_mode(2, 1280, 720));
    randr_outputs[3].modes = vec![1, 2];
    let screen = Screen {
        outputs: vec![Output {
            name: "HDMI-3".to_string(),
            connected: true,
            enabled: true,
            modes: vec![],
            location: Location::External,
        }],
    };
    let switch_plan = SwitchPlan {
        outputs_to_disable: vec![],
        outputs_to_enable: vec![0],
    };
    let resolution = Some(Resolution {
        width: 1280,
        height: 720,
    });
    assert_eq!(
        update_crtcs(&screen, &switch_plan, resolution, &modes, &mut randr_outputs, &mut crtcs),
        Ok(())
    );
    assert_eq!(crtcs[1].mode, 2);
    assert_eq!(randr_outputs[3].crtc, 21);
}

#[test]
fn when_no_modes_available_choose_best_mode_returns_none() {
    let output = OutputInfo {
        ..Default::default()
    };
    let modes = Vec::new();
    let resolution = None;

    let mode_id = choose_best_mode(&output, &modes, resolution);

    assert!(mode_id.is_none());
}

#[test]
fn when_no_preferred_or_admissible_mode_available_choose_best_mode_returns_none() {
    let output = OutputInfo {
        modes: vec![1],
        ..Default::default()
    };
    let modes = vec![ModeInfo {
        id: 1,
        mode_flags: MODE_FLAG_DOUBLE_SCAN,
        ..Default::default()
    }];
    let resolution = None;

    let mode_id = choose_best_mode(&output, &modes, resolution);

    assert!(mode_id.is_none());
}

#[test]
fn when_preferred_but_not_admissible_mode_available_choose_best_mode_returns_it() {
    let output = OutputInfo {
        modes: vec![1],
        num_preferred: 1,
        ..Default::default()
    };
    let modes = vec![ModeInfo {
        id: 1,
        mode_flags: MODE_FLAG_DOUBLE_SCAN,
        ..Default::default()
    }];
    let resolution = None;

    let mode_id = choose_best_mode(&output, &modes, resolution);

    assert_eq!(mode_id, Some(1));
}

#[test]
fn when_not_preferred_but_admissible_mode_available_choose_best_mode_returns_it() {
    let output = OutputInfo {
        modes: vec![1],
        ..Default::default()
    };
    let modes = vec![ModeInfo {
        id: 1,
        ..Default::default()
    }];
    let resolution = None;

    let mode_id = choose_best_mode(&output, &modes, resolution);

    assert_eq!(mode_id, Some(1));
}

fn sized(id: u32, width: u16, height: u16, dot_clock: u32) -> ModeInfo {
    ModeInfo {
        id,
        width,
        height,
        dot_clock,
        htotal: 1,
        vtotal: 1,
        ..Default::default()
    }
}

#[test]
fn choose_best_mode_prefers_preferred_mode() {
    let output = OutputInfo {
        modes: vec![1, 2],
        num_preferred: 1,
        ..Default::default()
    };
    let modes = vec![
        ModeInfo {
            id: 1,
            width: 640,
            height: 480,
            ..Default::default()
        },
        ModeInfo {
            id: 2,
            width: 800,
            height: 600,
            ..Default::default()
        },
    ];
    let resolution = None;

    let mode_id = choose_best_mode(&output, &modes, resolution);

    assert_eq!(mode_id, Some(1));
}

#[test]
fn choose_best_mode_prefers_larger_mode() {
    let output = OutputInfo {
        modes: vec![1, 2],
        ..Default::default()
    };
    let modes = vec![
        ModeInfo {
            id: 1,
            width: 640,
            height: 480,
            ..Default::default()
        },
        ModeInfo {
            id: 2,
            width: 800,
            height: 600,
            ..Default::default()
        },
    ];
    let resolution = None;

    let mode_id = choose_best_mode(&output, &modes, resolution);

    assert_eq!(mode_id, Some(2));
}

#[test]
fn choose_best_mode_prefers_mode_with_higher_refresh_rate() {
    let output = OutputInfo {
        modes: vec![1, 2],
        ..Default::default()
    };
    let modes = vec![sized(1, 640, 480, 1), sized(2, 640, 480, 2)];
    let resolution = None;

    let mode_id = choose_best_mode(&output, &modes, resolution);

    assert_eq!(mode_id, Some(2));
}

#[test]
fn choose_best_mode_preferred_beats_larger_and_faster() {
    let output = OutputInfo {
        modes: vec![1, 2],
        num_preferred: 1,
        ..Default::default()
    };
    let modes = vec![sized(1, 640, 480, 1), sized(2, 3840, 2160, 9)];
    assert_eq!(choose_best_mode(&output, &modes, None), Some(1));
}

#[test]
fn choose_best_mode_later_mode_wins_tie() {
    let output = OutputInfo {
        modes: vec![1, 2],
        ..Default::default()
    };
    let modes = vec![sized(1, 640, 480, 5), sized(2, 640, 480, 5)];
    assert_eq!(choose_best_mode(&output, &modes, None), Some(2));
}

#[test]
fn choose_best_mode_falls_back_when_resolution_unmatched() {
    let output = OutputInfo {
        modes: vec![1, 2],
        ..Default::default()
    };
    let modes = vec![sized(1, 640, 480, 5), sized(2, 800, 600, 1)];
    let resolution = Some(Resolution {
        width: 1024,
        height: 768,
    });
    assert_eq!(choose_best_mode(&output, &modes, resolution), Some(2));
}

#[test]
fn when_resolution_provided_choose_best_mode_prefers_preferred_mode() {
    let output = OutputInfo {
        modes: vec![1, 2, 3],
        num_preferred: 1,
        ..Default::default()
    };
    let modes = vec![
        sized(1, 640, 480, 1),
        sized(2, 640, 480, 2),
        sized(3, 800, 600, 3),
    ];
    let resolution = Some(Resolution {
        width: 640,
        height: 480,
    });

    let mode_id = choose_best_mode(&output, &modes, resolution);

    assert_eq!(mode_id, Some(1));
}

#[test]
fn when_resolution_provided_choose_best_mode_prefers_mode_with_highest_refresh_rate() {
    let output = OutputInfo {
        modes: vec![1, 2],
        ..Default::default()
    };
    let modes = vec![sized(1, 640, 480, 1), sized(2, 640, 480, 2)];
    let resolution = Some(Resolution {
        width: 640,
        height: 480,
    });

    let mode_id = choose_best_mode(&output, &modes, resolution);

    assert_eq!(mode_id, Some(2));
}

#[test]
fn when_no_crtcs_compute_screen_size_returns_none() {
    let modes = Vec::new();
    let outputs = Vec::new();
    let crtcs = Vec::new();

    let size = compute_screen_size(&modes, &outputs, &crtcs);

    assert_eq!(size, Ok(None));
}

#[test]
fn when_no_crtcs_enabled_compute_screen_size_returns_none() {
    let modes = Vec::new();
    let outputs = vec![OutputInfo {
        id: 20,
        ..Default::default()
    }];
    let crtcs = vec![CrtcInfo {
        id: 10,
        mode: 0,
        outputs: vec![20],
        ..Default::default()
    }];

    let size = compute_screen_size(&modes, &outputs, &crtcs);

    assert_eq!(size, Ok(None));
}

fn vga_mode() -> Vec<ModeInfo> {
    vec![ModeInfo {
        id: 1,
        width: 640,
        height: 480,
        ..Default::default()
    }]
}

#[test]
fn when_crtcs_enabled_compute_screen_size_returns_bbox_size_and_estimated_mm_size() {
    let modes = vga_mode();
    let outputs = vec![
        OutputInfo {
            id: 10,
            ..Default::default()
        },
        OutputInfo {
            id: 11,
            mm_width: 0,
            mm_height: 1,
            ..Default::default()
        },
    ];
    let crtcs = vec![
        CrtcInfo {
            id: 20,
            x: 0,
            y: 0,
            mode: 1,
            outputs: vec![10],
            ..Default::default()
        },
        CrtcInfo {
            id: 21,
            x: -10,
            y: 10,
            mode: 1,
            outputs: vec![11],
            ..Default::default()
        },
    ];

    let size = compute_screen_size(&modes, &outputs, &crtcs);

    assert_eq!(
        size,
        Ok(Some(ScreenSize {
            width: 650,
            height: 490,
            mm_width: px_to_mm(650),
            mm_height: px_to_mm(490)
        }))
    );
}

#[test]
fn when_crtcs_enabled_and_mm_sizes_known_compute_screen_size_returns_bbox_size_and_max_mm_size() {
    let modes = vga_mode();
    let outputs = vec![
        OutputInfo {
            id: 10,
            mm_width: 400,
            mm_height: 100,
            ..Default::default()
        },
        OutputInfo {
            id: 11,
            mm_width: 220,
            mm_height: 220,
            ..Default::default()
        },
    ];
    let crtcs = vec![
        CrtcInfo {
            id: 20,
            x: 0,
            y: 0,
            mode: 1,
            outputs: vec![10],
            ..Default::default()
        },
        CrtcInfo {
            id: 21,
            x: 10,
            y: -10,
            mode: 1,
            outputs: vec![11],
            ..Default::default()
        },
    ];

    let size = compute_screen_size(&modes, &outputs, &crtcs);

    assert_eq!(
        size,
        Ok(Some(ScreenSize {
            width: 650,
            height: 490,
            mm_width: 220,
            mm_height: 220,
        }))
    );
}

#[test]
fn compute_screen_size_errors() {
    let outputs = vec![OutputInfo {
        id: 10,
        ..Default::default()
    }];
    let unknown_mode = vec![CrtcInfo {
        id: 20,
        mode: 5,
        outputs: vec![10],
        ..Default::default()
    }];
    assert_eq!(
        compute_screen_size(&vga_mode(), &outputs, &unknown_mode),
        Err(RandrError::UnknownMode)
    );
    let wide = vec![ModeInfo {
        id: 1,
        width: 65535,
        height: 480,
        ..Default::default()
    }];
    let far = vec![
        CrtcInfo {
            id: 20,
            x: -10,
            mode: 1,
            outputs: vec![10],
            ..Default::default()
        },
        CrtcInfo {
            id: 21,
            x: 10,
            mode: 1,
            outputs: vec![10],
            ..Default::default()
        },
    ];
    assert_eq!(
        compute_screen_size(&wide, &outputs, &far),
        Err(RandrError::ScreenTooLarge)
    );
    let missing_output = vec![CrtcInfo {
        id: 20,
        mode: 1,
        outputs: vec![99],
        ..Default::default()
    }];
    assert_eq!(
        compute_screen_size(&vga_mode(), &outputs, &missing_output),
        Err(RandrError::Inconsistent)
    );
}

#[test]
fn px_to_mm_test() {
    assert_eq!(px_to_mm(0), 0);
    assert_eq!(px_to_mm(u16::MAX), 17339);
}

#[test]
fn px_to_mm_rounds_to_nearest() {
    assert_eq!(px_to_mm(96), 25);
    assert_eq!(px_to_mm(240), 64);
    assert_eq!(px_to_mm(1920), 508);
}

#[test]
fn randr_output_to_output_keeps_preferred_double_scan_mode() {
    let randr_output = OutputInfo {
        connected: true,
        modes: vec![2, 1],
        num_preferred: 1,
        name: "eDP-1".to_string(),
        ..Default::default()
    };
    let modes = vec![
        timed_mode(1, 1920, 1080),
        ModeInfo {
            mode_flags: MODE_FLAG_DOUBLE_SCAN,
            ..timed_mode(2, 640, 480)
        },
    ];
    let output = randr_output_to_output(&randr_output, &modes).unwrap();
    assert_eq!(
        output.modes,
        vec![
            Mode {
                resolution: Resolution {
                    width: 640,
                    height: 480
                },
                refresh_rate: 60020
            },
            Mode {
                resolution: Resolution {
                    width: 1920,
                    height: 1080
                },
                refresh_rate: 60020
            },
        ]
    );
}
