use vector_magik::desktop::canvas::{Cursor, Drawn, Layer, Pointing};
use vector_magik::desktop::convert::{Converted, Derived, Tick, AUTO_CONVERT_DELAY};
use vector_magik::desktop::files::{
    export_name, export_stem, save_extension, stage_drag_file, stage_state, Dropped, ErrandKind,
    Fetched, Loaded, Next, SaveStep, StageState, Staged, WriteEvent,
};
use vector_magik::desktop::frame::WorkEvent;
use vector_magik::desktop::panels::{
    Actions, CurveEvents, NodeChoice, ShapeAction,
};
use vector_magik::desktop::shapes::{deletion_refusal, Deletable, Merge};
use vector_magik::desktop::snapshot::{Chosen, Snapshot, StickerChoice};
use vector_magik::desktop::undo::Follow;
use vector_magik::desktop::{
    Bow, Counts, Defaults, DeriveRequest, Desktop, Pick, Shown, StatPopup, StatusKind, Traced,
};
use vector_magik::dragout::DragOutcome;
use vector_magik::dxf::DxfMode;
use vector_magik::format::{ExportOptions, Format};
use vector_magik::hand::{Point, Removal};
use vector_magik::offer::{
    foreign_title, offer_text, offer_vector, shape_count, skipped_line, trace_sides,
};
use vector_magik::picture::{ImageCategory, Quality, Raster};
use vector_magik::platform::{Command, Host};
use vector_magik::preview::{download_png, hand_out_png, preview_saved};
use vector_magik::process::{plan, Pass};
use vector_magik::reach::Reach;
use vector_magik::recolor::{border_opaque, colour_drop, Island};
use vector_magik::settings::{Manual, Preparation, Rgb, Sliders, Sticker};
use vector_magik::shown::{Overlay, View};
use vector_magik::window::Window;

const OPTIONS: ExportOptions = ExportOptions {
    grouped: true,
    stroke: false,
    dxf: DxfMode::Splines,
};

/// Where the simplification's slider starts.
const START: u32 = 0x3e80_0000;

fn sliders() -> Sliders {
    Sliders {
        segmentation: 5,
        smoothness: 6,
        curves: 6,
        corners: true,
    }
}

fn sticker() -> Sticker {
    Sticker {
        on: false,
        drawable: true,
        border: 4f64.to_bits(),
        edge: 8f64.to_bits(),
        border_rgb: Rgb { r: 0, g: 0, b: 0 },
        edge_rgb: Rgb {
            r: 255,
            g: 255,
            b: 255,
        },
        shadow: false,
    }
}

fn artwork() -> Manual {
    Manual {
        category: ImageCategory::AntiAliasedArtwork,
        quality: Quality::High,
    }
}

fn defaults() -> Defaults {
    Defaults {
        chosen: artwork(),
        overlap_opaque_photos: false,
        optional_optimizer: false,
        sliders: sliders(),
        tolerance: START,
        bow: 0.2f32.to_bits(),
        sticker: sticker(),
    }
}

fn picture() -> Loaded {
    Loaded {
        width: 120,
        height: 80,
        scaled_from: None,
        detected: artwork(),
        has_alpha: false,
        border: 3f64.to_bits(),
        edge: 6f64.to_bits(),
        drawable: true,
    }
}

fn loaded() -> Desktop {
    let mut app = Desktop::new(defaults());
    app.picture.path = "logo.png".to_owned();
    app.take_loaded(Ok(picture()), 4096, "Ctrl+Enter");
    app
}

fn shown(raw: u64) -> Shown {
    Shown {
        raw,
        drawn: raw,
        traced: Traced {
            preset: artwork(),
            photo_overlap: false,
            optional_optimizer: false,
            optimizer_kept: false,
            optimizer_ran: false,
            advanced: None,
        },
        counts: Counts {
            raw_nodes: 90,
            nodes: 40,
            raw_segments: 100,
            segments: 50,
            colors: 4,
        },
    }
}

/// What the running conversion of `app` brings.
fn brought(app: &Desktop, raw: u64) -> Converted {
    Converted {
        result: shown(raw),
        detected: Some(artwork()),
        working_opaque: true,
        border_opaque: true,
        auto: None,
        prep: app.settings.prep.copy(),
        derived_with: app.derive_settings(START),
        bow: 0.2f32.to_bits(),
        dropped: None,
        elapsed: 123,
    }
}

fn converted() -> Desktop {
    let mut app = loaded();
    assert!(app.start());
    let c = brought(&app, 1);
    assert_eq!(app.accept(c, START), None);
    app
}

fn point(x: f64, y: f64) -> Point {
    Point {
        x: x.to_bits(),
        y: y.to_bits(),
    }
}

fn island(color: &str, rgb: [u8; 3], covered: Vec<u32>) -> Island {
    edged_island(color, rgb, covered.clone(), covered)
}

fn edged_island(color: &str, rgb: [u8; 3], covered: Vec<u32>, edged: Vec<u32>) -> Island {
    Island {
        color: color.to_owned(),
        rgb: Some(rgb),
        covered,
        edged,
    }
}

/// The shown document drawn again, as asked.
fn settle(app: &mut Desktop, request: Option<DeriveRequest>) {
    if let Some(request) = request {
        app.receive_derivation(Derived {
            serial: request.serial,
            raw_version: request.raw_version,
            auto: request.auto,
            outcome: Ok((None, shown(1))),
        });
    }
    app.record_edits();
}

#[test]
fn undo_and_redo_walk_back_through_roundings_moves_and_settings() {
    let mut app = converted();
    app.record_edits();
    let (corner, other) = (point(3., 4.), point(9., 2.));
    let request = app.round_node(corner, Reach::Tiny);
    settle(&mut app, request);
    assert_eq!(app.hand.rounding_of(&corner), Some(Reach::Tiny));
    let to = point(12., 4.);
    let request = app.move_node(other, to);
    settle(&mut app, request);
    assert_eq!(app.hand.moved_from(&to), Some(other));
    app.settings.curves.regularize = false;
    let request = app.reapply();
    settle(&mut app, request);
    assert_eq!(app.history.undo.len(), 3, "one step per edit");
    // Undo walks back one edit at a time.
    let follow = app.undo(START);
    assert!(!follow.convert && follow.derive.is_some());
    assert!(app.settings.curves.regularize);
    app.undo(START);
    assert!(app.hand.moved.is_empty());
    app.undo(START);
    assert!(app.hand.rounded.is_empty());
    app.undo(START);
    assert_eq!(app.status_line(), "Nothing to undo.");
    // Redo steps forward again.
    app.redo(START);
    assert_eq!(app.hand.rounding_of(&corner), Some(Reach::Tiny));
    assert_eq!(app.status_line(), "Redone.");
    app.redo(START);
    assert_eq!(app.hand.moved_from(&to), Some(other));
    // A new edit drops what was undone.
    let request = app.round_node(other, Reach::Wide);
    settle(&mut app, request);
    assert!(app.history.redo.is_empty());
    app.redo(START);
    assert_eq!(app.status_line(), "Nothing to redo.");
}

#[test]
fn an_undo_that_converts_waits_for_the_conversion() {
    let mut app = converted();
    app.record_edits();
    let shapes = vec![
        island("#FF0000", [255, 0, 0], vec![1, 2]),
        island("#00ff00", [0, 255, 0], vec![3]),
    ];
    assert!(app.merge_selected(&shapes, None));
    app.record_edits();
    let before = app.history.undo.len();
    assert_eq!(
        app.undo(START),
        Follow {
            convert: false,
            derive: None
        }
    );
    assert!(app.status_line().starts_with("That undo converts again"));
    assert_eq!(app.history.undo.len(), before);
    let c = brought(&app, 2);
    app.accept(c, START);
    let follow = app.undo(START);
    assert!(follow.convert && app.work.worker);
    assert!(app.settings.prep.recolors.is_empty());
    assert_eq!(app.status_line(), "Undone. Ctrl+Y redoes it.");
    app.redo(START);
    assert!(app.status_line().starts_with("That redo converts again"));
}

#[test]
fn a_moved_node_carries_its_rounding_and_is_put_back() {
    let mut app = converted();
    let node = point(20., 10.);
    app.round_node(node, Reach::Tight);
    let to = point(22.5, 8.5);
    app.move_node(node, to);
    assert_eq!(app.hand.rounding_of(&to), Some(Reach::Tight));
    assert_eq!(app.hand.moved_from(&to), Some(node));
    // Carried on, it keeps where it came from.
    let further = point(23.5, 8.5);
    app.move_node(to, further);
    assert_eq!(app.hand.moved.len(), 1);
    assert_eq!(app.hand.moved_from(&further), Some(node));
    // Put back, the rounding is in place.
    app.put_back(further);
    assert!(app.hand.moved.is_empty());
    assert_eq!(app.hand.rounding_of(&node), Some(Reach::Tight));
    // Carried back onto its own place, a node is simply not moved.
    app.move_node(node, to);
    app.move_node(to, node);
    assert!(app.hand.moved.is_empty());
}

#[test]
fn a_node_dragged_again_before_its_picture_arrives_moves_once() {
    let mut app = converted();
    let node = point(20., 10.);
    app.round_node(node, Reach::Tight);
    let first = point(22., 10.);
    let second = point(24., 11.);
    // The second drag starts where the marker still shows it: the old place.
    app.move_node(node, first);
    app.move_node(node, second);
    assert_eq!(app.hand.moved.len(), 1);
    assert_eq!(app.hand.moved[0].to, second);
    assert_eq!(app.hand.rounding_of(&second), Some(Reach::Tight));
    assert_eq!(app.hand.moved_from(&second), Some(node));
}

#[test]
fn a_rounded_corner_dragged_shows_the_outline_it_will_round() {
    let mut app = converted();
    let node = point(20., 10.);
    app.round_node(node, Reach::Tight);
    app.popups.node_menu = Some(node);
    // The rounding cut the corner out of the shown document; the drag pulls
    // the pieces it had before.
    let drag = app.begin_node_drag(node, true);
    assert!(drag.before_rounding);
    assert_eq!(drag.rounding, Some(Reach::Tight));
    assert_eq!(app.popups.node_drag.take(), Some(node));
    assert!(app.popups.node_menu.is_none());
    // A corner that is not rounded drags its pieces as they are.
    let plain = app.begin_node_drag(point(1., 1.), true);
    assert!(plain.rounding.is_none() && !plain.before_rounding);
}

#[test]
fn a_node_is_deleted_undone_and_kept_through_a_conversion() {
    let mut app = converted();
    app.record_edits();
    let node = point(5., 5.);
    // From its menu: the node goes and the menu closes, one step of Undo.
    app.popups.node_menu = Some(node);
    let refusal = deletion_refusal(true, &Deletable::Yes, false, true);
    assert_eq!(refusal, None);
    let request = app.delete_node(node, refusal);
    assert!(request.is_some() && app.popups.node_menu.is_none());
    settle(&mut app, request);
    app.undo(START);
    assert!(app.hand.deleted_nodes.is_empty());
    app.redo(START);
    assert_eq!(app.hand.deleted_nodes, [node]);
    // Converted again, the same trace loses the same node.
    app.start();
    let c = brought(&app, 2);
    app.accept(c, START);
    assert_eq!(app.hand.deleted_nodes, [node]);
    // A junction stays, and says why.
    let why = deletion_refusal(
        true,
        &Deletable::No("Three pieces meet here.".to_owned()),
        false,
        true,
    );
    assert!(app.delete_node(point(6., 6.), why).is_none());
    assert_eq!(app.hand.deleted_nodes, [node]);
    assert_eq!(app.status_line(), "Three pieces meet here.");
    // The two ends of a rounded corner's arc are made by the rounding.
    let absent = Deletable::Absent("No node there.".to_owned());
    assert!(deletion_refusal(true, &absent, true, true)
        .is_some_and(|why| why.contains("rounded corner")));
    assert_eq!(
        deletion_refusal(true, &absent, false, true).as_deref(),
        Some("No node there.")
    );
    assert_eq!(
        deletion_refusal(true, &Deletable::Unreadable, true, true).as_deref(),
        Some("The drawing could not be read.")
    );
    assert_eq!(
        deletion_refusal(false, &Deletable::Yes, false, false).as_deref(),
        Some("Wait for the conversion to finish.")
    );
    // A rounded corner deleted takes its rounding with it.
    let other = point(7., 7.);
    app.round_node(other, Reach::Tight);
    app.delete_node(other, None);
    assert!(app.hand.rounding_of(&other).is_none());
    assert_eq!(app.hand.deleted_nodes.len(), 2);
    // Brought back, every node is where the trace put it.
    assert!(app.restore_deleted_nodes().is_some());
    assert!(app.hand.deleted_nodes.is_empty());
}

#[test]
fn a_running_conversion_can_be_cancelled_and_a_drop_meanwhile_is_explained() {
    let mut app = loaded();
    app.start();
    // A file dropped meanwhile is not opened, and the status says why.
    assert!(!app.take_dropped("logo-without-blending.png"));
    assert!(
        app.status_line()
            .starts_with("logo-without-blending.png was not opened")
            && app.status_line().contains("cancel"),
        "{}",
        app.status_line()
    );
    // Cancelled, the window stops waiting for the result, but a new
    // conversion waits until the cancelled one has stopped.
    app.cancel();
    assert!(!app.work.worker && app.work.stopping && !app.idle());
    assert!(app.status_line().starts_with("Conversion cancelled"));
    assert!(!app.take_dropped("other.png"));
    assert_eq!(
        app.status_line(),
        "other.png was not opened: a cancelled conversion is still stopping, then drop it again."
    );
    app.stopped();
    assert!(app.idle());
    assert!(app.result.is_none() && !app.work.worker);
    assert!(app.take_dropped("logo-without-blending.png"));
    // A file dragged out and released over the window is not opened.
    assert_eq!(Dropped::of(true, true, false), None);
    assert_eq!(Dropped::of(true, false, true), Some(Dropped::Path));
    assert_eq!(Dropped::of(false, false, true), Some(Dropped::Bytes));
    assert_eq!(Dropped::of(false, false, false), None);
}

#[test]
fn cancel_puts_the_previous_result_back() {
    let mut app = converted();
    let before = app.result;
    let counts = app.shown_counts();
    app.start();
    assert!(app.result.is_none() && app.work.worker);
    app.cancel();
    assert_eq!(app.result, before);
    assert_eq!(app.shown_counts(), counts);
    assert!(
        app.status_line().contains("previous result is back"),
        "{}",
        app.status_line()
    );
    app.stopped();
    // Its result never replaced the restored one.
    assert_eq!(app.result, before);
    assert!(app.idle());
}

#[test]
fn converting_again_keeps_the_picture_and_its_nodes_until_the_result_arrives() {
    let mut app = converted();
    let counts = app.shown_counts();
    assert!(counts.is_some());
    app.start();
    assert!(app.result.is_none() && app.replaced.is_some());
    // The footer and the Nodes card keep their numbers.
    assert_eq!(app.shown_counts(), counts);
    let c = brought(&app, 2);
    app.accept(c, START);
    // The new result replaces it in one step.
    assert!(app.replaced.is_none() && app.result == Some(shown(2)));
}

#[test]
fn a_superseded_auto_result_leaves_the_slider_alone() {
    let mut app = converted();
    let auto = app.request_derive(true).unwrap();
    // The user moves the slider before Auto answers: a newer request.
    app.settings.curves.simplify_tolerance = 1.7f32.to_bits();
    app.reapply();
    app.receive_derivation(Derived {
        serial: auto.serial,
        raw_version: app.versions.raw,
        auto: true,
        outcome: Ok((
            Some(Pick {
                exact: 0.3f64.to_bits(),
                shown: 0.3f32.to_bits(),
            }),
            shown(5),
        )),
    });
    assert_eq!(app.settings.curves.simplify_tolerance, 1.7f32.to_bits());
    assert_eq!(app.versions.pending, Some(auto.serial + 1));
    assert_eq!(app.result, Some(shown(5)));
    // The latest one sets it.
    let auto = app.request_derive(true).unwrap();
    let pick = Pick {
        exact: 0.3f64.to_bits(),
        shown: 0.3f32.to_bits(),
    };
    app.receive_derivation(Derived {
        serial: auto.serial,
        raw_version: app.versions.raw,
        auto: true,
        outcome: Ok((Some(pick), shown(6))),
    });
    assert_eq!(app.settings.curves.simplify_tolerance, pick.shown);
    assert_eq!(app.settings.pick, Some(pick));
    // One of an earlier conversion goes nowhere.
    app.receive_derivation(Derived {
        serial: 99,
        raw_version: app.versions.raw - 1,
        auto: false,
        outcome: Err("late".to_owned()),
    });
    assert_eq!(app.result, Some(shown(6)));
    assert_ne!(app.status_line(), "late");
}

#[test]
fn edits_made_while_converting_apply_to_its_result() {
    let mut app = loaded();
    app.start();
    let c = brought(&app, 1);
    // While it runs: simplification off, a sticker on. There is no document
    // to draw from yet.
    app.settings.curves.simplify = false;
    assert!(app.reapply().is_none());
    app.settings.sticker.on = true;
    assert!(app.reapply().is_none());
    assert!(app.versions.pending.is_none());
    // The result came drawn with the settings it started with; the ones
    // asked for since are drawn at once.
    let request = app.accept(c, START);
    assert!(request.is_some() && app.versions.pending.is_some());
    assert!(
        !app.settings.curves.simplify,
        "Auto's tolerance did not switch it back on"
    );
    settle(&mut app, request);
    assert!(app.versions.pending.is_none());
    assert!(app.derive_settings(START).simplify.is_none());
    assert!(app.derive_settings(START).sticker.is_some());
}

#[test]
fn convert_automatically_runs_again_once_a_setting_rests() {
    let mut app = loaded();
    assert!(app.auto.on, "on by default");
    // Opening never converts; the first Convert is the user's.
    assert_eq!(app.auto_convert_tick(10_000, false, None), (Tick::Rest, None));
    assert!(!app.work.worker && app.result.is_none());
    app.start();
    let c = brought(&app, 1);
    app.accept(c, START);
    assert!(app.result.is_some());
    // A setting changed: nothing until it has rested.
    app.settings.prep.colors = Some(3);
    assert_eq!(
        app.auto_convert_tick(20_000, false, None).0,
        Tick::Wait(AUTO_CONVERT_DELAY)
    );
    assert!(!app.work.worker);
    assert_eq!(app.stale_hint(), "Converting again in a moment\u{2026}");
    let rested = 20_000 + AUTO_CONVERT_DELAY;
    // Not while a button is held.
    assert_eq!(
        app.auto_convert_tick(rested, true, None).0,
        Tick::Wait(30)
    );
    assert_eq!(app.auto_convert_tick(rested, false, None).0, Tick::Start);
    assert!(app.work.worker, "{}", app.status_line());
    let c = brought(&app, 2);
    app.accept(c, START);
    assert!(!app.conversion_stale());
    // Changed again while converting: the old conversion stops and the new
    // settings convert.
    app.settings.prep.colors = Some(4);
    app.auto_convert_tick(30_000, false, None);
    app.auto_convert_tick(30_500, false, None);
    assert!(app.work.worker);
    app.settings.prep.colors = Some(5);
    app.auto_convert_tick(30_600, false, None);
    assert_eq!(app.auto_convert_tick(31_100, false, None).0, Tick::Wait(50));
    assert!(app.work.stopping && !app.work.worker);
    app.stopped();
    assert_eq!(app.auto_convert_tick(31_200, false, None).0, Tick::Start);
    assert_eq!(app.auto.converted.as_ref().unwrap().prep.colors, Some(5));
    assert_eq!(app.status_line(), "Settings changed; converting again\u{2026}");
    let c = brought(&app, 3);
    app.accept(c, START);
    assert_eq!(app.picture.converted_prep.as_ref().unwrap().colors, Some(5));
    // Off, a change waits for Convert.
    app.auto.on = false;
    app.settings.prep.colors = Some(6);
    app.auto_convert_tick(40_000, false, None);
    app.auto_convert_tick(41_000, false, None);
    assert!(!app.work.worker && app.conversion_stale());
    assert_eq!(app.stale_hint(), "Convert again to apply.");
}

#[test]
fn cancel_holds_the_settings_until_they_change() {
    let mut app = converted();
    let before = app.result;
    app.settings.prep.colors = Some(3);
    app.auto_convert_tick(1_000, false, None);
    app.auto_convert_tick(1_500, false, None);
    assert!(app.work.worker);
    app.cancel();
    // The earlier picture is back with the settings it was made with, and
    // the stopped settings wait: the card says Convert, not "in a moment".
    assert_eq!(app.result, before);
    assert_eq!(app.auto.converted.as_ref().unwrap().prep.colors, None);
    assert!(app.held() && app.conversion_stale());
    assert_eq!(app.stale_hint(), "Convert again to apply.");
    app.stopped();
    assert_eq!(app.auto_convert_tick(5_000, false, None).0, Tick::Rest);
    assert!(!app.work.worker, "held settings started again");
    // Changed again, they convert by themselves.
    app.settings.prep.colors = Some(4);
    app.auto_convert_tick(6_000, false, None);
    app.auto_convert_tick(6_500, false, None);
    assert!(app.work.worker);
    let c = brought(&app, 2);
    app.accept(c, START);
    assert_eq!(app.picture.converted_prep.as_ref().unwrap().colors, Some(4));
}

#[test]
fn a_failed_conversion_puts_the_result_back_and_is_not_tried_again() {
    let mut app = converted();
    let before = app.result;
    app.settings.prep.colors = Some(2);
    app.start();
    app.fail("The engine refused the picture.");
    assert_eq!(app.result, before);
    assert_eq!(app.status_line(), "The engine refused the picture.");
    assert_eq!(app.status.kind, StatusKind::Error);
    assert!(app.idle() && app.held());
    assert_eq!(app.auto_convert_tick(9_000, false, None).0, Tick::Rest);
}

#[test]
fn save_popup_stages_the_file_and_the_convert_hint_follows_the_preparation() {
    let mut app = converted();
    // The popup opens with a result and stays open across frames.
    assert!(!app.popups.save);
    app.open_overlay(Overlay::Save, None, None);
    assert!(app.popups.save);
    assert!(app.save_popup(false, true));
    assert!(app.popups.save);
    // The staged file is written off the window's thread; a new size writes
    // it again.
    let mut staged: Option<Staged> = None;
    let key = app.stage_key(false, Format::Svg, Some((240, 160)), true, OPTIONS);
    assert!(stage_drag_file(&mut staged, key, WriteEvent::Nothing));
    let stem = export_stem(Some("logo-with-blending-small"));
    let name = export_name(&stem, Format::Svg);
    assert_eq!(name, "logo-with-blending-small.svg");
    staged = Some(Staged {
        key: key.unwrap(),
        path: format!("/staging/{name}"),
        writing: true,
        error: None,
    });
    assert!(matches!(stage_state(&staged, key), StageState::Writing));
    assert!(!stage_drag_file(&mut staged, key, WriteEvent::Nothing));
    assert!(!stage_drag_file(&mut staged, key, WriteEvent::Done(Ok(()))));
    let StageState::Ready(path) = stage_state(&staged, key) else {
        panic!("the file is written");
    };
    assert!(path.ends_with("logo-with-blending-small.svg"));
    let smaller = app.stage_key(false, Format::Svg, Some((120, 80)), true, OPTIONS);
    assert!(matches!(stage_state(&staged, smaller), StageState::Writing));
    assert!(stage_drag_file(&mut staged, smaller, WriteEvent::Nothing));
    // So does another way of writing it.
    let stroked = ExportOptions {
        stroke: true,
        ..OPTIONS
    };
    let other = app.stage_key(false, Format::Svg, Some((240, 160)), true, stroked);
    assert!(stage_drag_file(&mut staged, other, WriteEvent::Nothing));
    assert_eq!(loaded().stage_key(false, Format::Svg, Some((1, 1)), true, OPTIONS), None);
    assert!(loaded().stage_key(true, Format::Svg, Some((1, 1)), true, OPTIONS).is_some());
    // Changing the preparation after a result asks for another Convert.
    assert!(!app.conversion_stale());
    app.settings.prep.colors = Some(4);
    assert!(app.conversion_stale());
    app.settings.prep.colors = None;
    assert!(!app.conversion_stale());
    // So do the image type, the quality and the optional pass: switching
    // Auto off with other choices asks for it; the choices Auto made, or
    // Auto on again, do not.
    let detected = app.picture.detected.unwrap();
    app.settings.conversion.automatic = false;
    app.settings.conversion.category = detected.category;
    app.settings.conversion.quality = detected.quality;
    assert!(!app.conversion_stale());
    app.settings.conversion.quality = Quality::Low;
    assert!(app.conversion_stale(), "quality");
    app.settings.conversion.quality = detected.quality;
    app.settings.conversion.category = ImageCategory::AliasedArtwork;
    assert!(app.conversion_stale(), "image type");
    app.settings.conversion.automatic = true;
    assert!(!app.conversion_stale());
    app.settings.conversion.optional_optimizer = true;
    assert!(app.conversion_stale(), "optional pass");
    app.settings.conversion.optional_optimizer = false;
    // Seams only matter for an opaque photograph: not for this logo.
    app.settings.conversion.overlap_opaque_photos = true;
    assert!(!app.conversion_stale());
    app.settings.conversion.overlap_opaque_photos = false;
    // Other advanced settings ask for it too.
    assert!(!app.advanced_stale(Some(None)) && !app.advanced_stale(None));
    assert!(app.advanced_stale(Some(Some(sliders()))));
    assert!(app.advanced_hint(Some(Some(sliders()))));
}

#[test]
fn a_file_that_cannot_be_written_says_why() {
    let app = converted();
    let key = app.stage_key(false, Format::Pdf, Some((10, 10)), false, OPTIONS);
    let at = |writing| {
        Some(Staged {
            key: key.unwrap(),
            path: "a.pdf".to_owned(),
            writing,
            error: None,
        })
    };
    let mut staged = at(true);
    stage_drag_file(
        &mut staged,
        key,
        WriteEvent::Done(Err("No space left.".to_owned())),
    );
    assert!(matches!(stage_state(&staged, key), StageState::Failed(e) if e == "No space left."));
    let mut staged = at(true);
    stage_drag_file(&mut staged, key, WriteEvent::Gone);
    assert!(
        matches!(stage_state(&staged, key), StageState::Failed(e) if e == "The exporter stopped unexpectedly.")
    );
}

#[test]
fn saving_runs_off_the_ui_thread_and_the_toolbar_waits_for_it() {
    let mut app = converted();
    let errand = app.save_to("out.svg", Some(Ok(()))).unwrap();
    assert!(!app.idle() && app.work.errand);
    assert_eq!(app.status_line(), "Saving out.svg\u{2026}");
    assert_eq!(app.status.kind, StatusKind::Busy);
    // A second errand would drop the first one's answer.
    assert!(app.open_dialog(&mut Host::new(false)).is_none());
    let next = app.receive_errand(errand, Fetched::Written(Ok(())), None);
    assert!(matches!(next, Next::Nothing));
    assert_eq!(app.status_line(), "Saved out.svg");
    assert!(app.idle());
    assert!(app.save_to("out.svg", None).is_none());
    assert_eq!(
        app.status_line(),
        "Nothing to save: convert the image first."
    );
    assert!(app
        .save_to("out.svg", Some(Err("Too large.".to_owned())))
        .is_none());
    assert_eq!(app.status_line(), "Too large.");
}

#[test]
fn dialogs_answer_or_leave_no_trace() {
    let mut app = converted();
    let before = app.status_line();
    let errand = app.open_dialog(&mut Host::new(false)).unwrap();
    assert!(matches!(errand.kind, ErrandKind::Open));
    assert_eq!(app.status_line(), "Choose an image in the Open dialog.");
    app.receive_errand(errand, Fetched::Picked(None), None);
    assert_eq!(app.status_line(), before);
    let errand = app.open_dialog(&mut Host::new(false)).unwrap();
    let picked = Fetched::Picked(Some(("/pictures/b.png".to_owned(), 1)));
    assert!(matches!(
        app.receive_errand(errand, picked, Some("png")),
        Next::Load
    ));
    assert_eq!(app.picture.path, "/pictures/b.png");
    // The format picked in the dialog gives the extension.
    let SaveStep::Dialog(Some(errand)) = app.save_dialog(&Host::new(false)) else {
        panic!("a dialog");
    };
    let picked = Fetched::Picked(Some(("/out/c".to_owned(), 2)));
    let Next::Save { path, extension } = app.receive_errand(errand, picked, None) else {
        panic!("it saves");
    };
    assert_eq!((path.as_str(), extension), ("/out/c", Some("pdf")));
    assert_eq!(save_extension(Some("SVG"), 2), None);
    assert_eq!(save_extension(Some("txt"), 99), Some("svg"));
    // A picture of the window never replaces the source.
    let errand = app.save_preview_png(&mut Host::new(false), "a").0.unwrap();
    let picked = Fetched::Picked(Some(("/out/d.png".to_owned(), 1)));
    let Next::Preview { path, before } = app.receive_errand(errand, picked, None) else {
        panic!("a preview");
    };
    assert_eq!(path, "/out/d.png");
    assert!(!app.take_preview(before, true));
    assert_eq!(
        app.status_line(),
        "Preview must not replace the source image."
    );
    let SaveStep::Dialog(Some(errand)) = app.save_dialog(&Host::new(false)) else {
        panic!("a dialog");
    };
    app.receive_errand(errand, Fetched::Written(Err("Stopped.".to_owned())), None);
    assert_eq!(app.status_line(), "Stopped.");
}

#[test]
fn a_picture_over_the_engine_limit_loads_scaled_and_converts() {
    let mut app = Desktop::new(defaults());
    app.picture.path = "wide.png".to_owned();
    let mut wide = picture();
    (wide.width, wide.height) = (4096, 328);
    wide.scaled_from = Some((5000, 401));
    app.take_loaded(Ok(wide), 4096, "Ctrl+Enter");
    assert_eq!(
        app.status_line(),
        "5000 \u{00D7} 401 px scaled to 4096 \u{00D7} 328 px, the largest size it converts (4096 px). Convert (Ctrl+Enter) traces it."
    );
    assert!(app.can_convert());
    assert!(app.start());
    assert_eq!(app.status_line(), "Creating vector curves\u{2026}");
    let app = loaded();
    assert_eq!(
        app.status_line(),
        "120 \u{00D7} 80 px loaded. Convert (Ctrl+Enter) traces it."
    );
}

#[test]
fn a_bad_file_keeps_the_open_picture_and_a_new_one_starts_clean() {
    let mut app = converted();
    app.record_edits();
    app.round_node(point(1., 2.), Reach::Wide);
    app.record_edits();
    app.picture.path = "broken.png".to_owned();
    app.take_loaded(Err("Not an image.".to_owned()), 4096, "Ctrl+Enter");
    assert_eq!(
        app.status_line(),
        "Not an image. The open image stays as it was."
    );
    assert_eq!(app.picture.path, "logo.png");
    assert!(app.result.is_some() && app.history.undo.len() == 1);
    app.picture.path = "next.png".to_owned();
    app.take_loaded(Ok(picture()), 4096, "Ctrl+Enter");
    assert_eq!(app.picture.loaded_path, "next.png");
    assert!(app.result.is_none() && app.hand.rounded.is_empty());
    assert!(app.history.undo.is_empty() && app.auto.converted.is_none());
    app.close();
    assert!(app.picture.size.is_none() && app.picture.path.is_empty());
    app.take_loaded(Err("Not an image.".to_owned()), 4096, "Ctrl+Enter");
    assert_eq!(app.status_line(), "Not an image.");
    assert!(!app.start());
}

#[test]
fn shapes_can_be_deleted_restored_and_merged() {
    let mut app = converted();
    let at = point(60., 40.);
    let shape = |color: &str, at| Removal {
        color: color.to_owned(),
        at,
    };
    app.hand.toggle_selected(shape("#112233", at));
    app.resolve_selection(&vec![true]);
    assert_eq!(app.hand.selected.len(), 1);
    assert!(app.delete_selected().is_some());
    assert!(app.hand.selected.is_empty() && app.hand.deleted.len() == 1);
    assert!(app.restore_deleted().is_some());
    assert!(app.hand.deleted.is_empty());
    // Merge one shape into a neighbouring colour.
    app.hand.selected = vec![shape("#445566", point(1., 1.)), shape("#112233", at)];
    let shapes = vec![
        island("#445566", [0x44, 0x55, 0x66], vec![0, 1]),
        edged_island("#112233", [0x11, 0x22, 0x33], vec![8], vec![7, 8, 9]),
    ];
    assert!(app.merge_selected(&shapes, None));
    assert!(app.work.worker && app.settings.prep.recolors.len() == 1);
    assert_eq!(app.settings.prep.recolors[0].pixels, [7, 8, 9]);
    assert_eq!(app.settings.prep.recolors[0].rgb, [0x44, 0x55, 0x66]);
    assert_eq!(
        app.status_line(),
        "Merging 1 shape into #445566 and converting again\u{2026}"
    );
    let c = brought(&app, 2);
    app.accept(c, START);
    assert!(app
        .picture
        .converted_prep
        .as_ref()
        .unwrap()
        .is_same(&app.settings.prep));
    assert!(app.undo_merges());
    assert!(app.settings.prep.recolors.is_empty() && app.work.worker);
    // Shapes of one colour do not merge, nor into a colour with no channels.
    let c = brought(&app, 3);
    app.accept(c, START);
    let same = vec![
        island("#AABBCC", [1, 2, 3], vec![1]),
        island("#aabbcc", [1, 2, 3], vec![2]),
    ];
    assert!(!app.merge_selected(&same, None));
    assert_eq!(
        app.status_line(),
        "Select shapes of two colors to merge them."
    );
    let nameless = Merge {
        color: "url(#a)".to_owned(),
        rgb: None,
    };
    assert!(!app.merge_selected(&same, Some(nameless)));
    assert_eq!(app.status_line(), "Cannot merge into url(#a)");
}

#[test]
fn the_background_is_cut_where_the_border_is_opaque() {
    let mut app = converted();
    let shape = || Removal {
        color: "#ffffff".to_owned(),
        at: point(0., 0.),
    };
    assert!(app.cut_background(Vec::new()).is_none());
    assert_eq!(
        app.status_line(),
        "No background shape touches the edge of the picture."
    );
    assert!(app.cut_background(vec![shape()]).is_some());
    assert_eq!(
        app.status_line(),
        "Cut out 1 background shape. Restore deleted brings it back."
    );
    app.cut_background(vec![shape(), shape()]);
    assert_eq!(
        app.status_line(),
        "Cut out 2 background shapes. Restore deleted brings them back."
    );
    assert_eq!(app.hand.deleted.len(), 3);
    app.picture.border_opaque = false;
    assert_eq!(app.cut_offer().0, false);
    assert!(app.cut_background(vec![shape()]).is_none());
    assert_eq!(app.hand.deleted.len(), 3);
}

#[test]
fn dropping_a_colour_beside_transparency_leaves_transparency() {
    // A red disc's worth of pixels on transparent ones that hide white, with
    // a blue corner.
    let (width, height) = (9usize, 9usize);
    let mut pixels = vec![[255, 255, 255, 0]; width * height];
    let mut red = Vec::new();
    let mut blue = Vec::new();
    for y in 0..height {
        for x in 0..width {
            let i = y * width + x;
            if (3..6).contains(&x) && (3..6).contains(&y) {
                pixels[i] = [255, 0, 0, 255];
                red.push(i as u32);
            } else if x >= 6 && (3..6).contains(&y) {
                pixels[i] = [0, 0, 255, 255];
                blue.push(i as u32);
            }
        }
    }
    let working = Raster {
        width,
        height,
        pixels,
    };
    let islands = vec![
        island("#ff0000", [255, 0, 0], red.clone()),
        island("#0000ff", [0, 0, 255], blue),
    ];
    let recolors = colour_drop(&islands, &working, "#FF0000", Some([255, 0, 0]));
    assert!(recolors
        .iter()
        .any(|r| r.alpha == Some(0) && !r.pixels.is_empty()));
    assert!(
        !recolors
            .iter()
            .any(|r| r.alpha.is_none() && r.rgb == [255, 255, 255]),
        "a white band"
    );
    // No pixel stays red.
    let changed: Vec<u32> = recolors.iter().flat_map(|r| r.pixels.clone()).collect();
    assert!(red.iter().all(|i| changed.contains(i)));
    // Two pixels around go with the red: on a white field its blend does, and
    // the pixels within three more take their own shape's colour.
    let line = Raster {
        width: 13,
        height: 1,
        pixels: (0..13u8)
            .map(|x| match x {
                6 => [255, 0, 0, 255],
                4 | 5 | 7 | 8 => [255, 200, 200, 255],
                _ => [250, 250, 250, 255],
            })
            .collect(),
    };
    let field = vec![
        island("#ffffff", [255, 255, 255], (0..13).collect()),
        edged_island("#ff0000", [255, 0, 0], vec![6], vec![5, 6, 7]),
    ];
    let recolors = colour_drop(&field, &line, "#ff0000", Some([255, 0, 0]));
    assert_eq!(recolors.len(), 1);
    assert_eq!(recolors[0].rgb, [255, 255, 255]);
    assert_eq!(recolors[0].pixels, (1..12).collect::<Vec<u32>>());
    // Another colour's shape owns what it covers, not its edge.
    let beside = vec![
        edged_island("#fafafa", [250, 250, 250], (0..2).collect(), (0..13).collect()),
        edged_island("#ff0000", [255, 0, 0], vec![6], vec![5, 6, 7]),
    ];
    let recolors = colour_drop(&beside, &line, "#ff0000", Some([255, 0, 0]));
    assert_eq!(recolors.len(), 1);
    assert_eq!(recolors[0].rgb, [250, 250, 250]);
    assert_eq!(recolors[0].pixels, [4, 5, 6, 7, 8]);
    // The colour goes through the window too.
    let mut app = converted();
    assert!(!app.remove_color("#123456", &islands));
    assert_eq!(app.status_line(), "No shape of #123456 to drop.");
    app.popups.stat = Some(StatPopup::Colors);
    assert!(app.drop_colour("#ff0000", &islands));
    assert!(app.popups.stat.is_none());
    assert!(app.status_line().starts_with("Dropping #ff0000: its shapes"));
    let mut c = brought(&app, 2);
    c.prep.recolors = recolors;
    c.dropped = Some(("#ff0000".to_owned(), 9));
    app.accept(c, START);
    assert_eq!(
        app.status_line(),
        "Dropped #ff0000 (9 pixels changed). Vector ready in 1.23 s."
    );
    assert!(!app.settings.prep.recolors.is_empty());
    assert!(!app.conversion_stale());
    // The last colour stays.
    app.result = app.result.map(|mut s| {
        s.counts.colors = 1;
        s
    });
    assert!(!app.remove_color("#ff0000", &islands));
    assert_eq!(app.status_line(), "The last color stays.");
}

#[test]
fn a_border_is_opaque_when_half_of_it_is() {
    let with = |opaque: usize| {
        let mut pixels = vec![[0, 0, 0, 0]; 4];
        for p in pixels.iter_mut().take(opaque) {
            p[3] = 255;
        }
        Raster {
            width: 2,
            height: 2,
            pixels,
        }
    };
    assert!(border_opaque(&with(4)));
    assert!(border_opaque(&with(2)));
    assert!(!border_opaque(&with(1)));
    assert!(!border_opaque(&Raster {
        width: 0,
        height: 0,
        pixels: Vec::new()
    }));
    // A corner counts once: four of the eight border pixels are opaque.
    let of = |width: usize, alpha: &[u8]| Raster {
        width,
        height: alpha.len() / width,
        pixels: alpha.iter().map(|&a| [0, 0, 0, a]).collect(),
    };
    assert!(border_opaque(&of(3, &[0, 255, 0, 255, 255, 255, 0, 255, 0])));
    assert!(!border_opaque(&of(3, &[0, 255, 0, 255, 255, 254, 0, 255, 0])));
    // A single row or column is all border.
    assert!(border_opaque(&of(3, &[255, 0, 255])));
    assert!(!border_opaque(&of(1, &[255, 0, 0])));
}

#[test]
fn the_menus_and_the_toolbar_act_on_the_window() {
    let mut app = converted();
    let node = point(2., 3.);
    app.popups.node_menu = Some(node);
    assert!(app
        .choose_node(node, NodeChoice::Round(Reach::Medium))
        .is_some());
    assert!(app.popups.node_menu.is_none());
    assert_eq!(app.hand.rounding_of(&node), Some(Reach::Medium));
    app.choose_node(node, NodeChoice::Restore);
    assert!(app.hand.rounded.is_empty());
    let to = point(4., 4.);
    app.move_node(node, to);
    // Squared where the trace had it.
    app.choose_node(to, NodeChoice::Square(true));
    assert_eq!(app.hand.straightened, [node]);
    app.choose_node(to, NodeChoice::Square(false));
    assert!(app.hand.straightened.is_empty());
    app.choose_node(to, NodeChoice::PutBack);
    assert!(app.hand.moved.is_empty());
    app.choose_node(node, NodeChoice::Delete(None));
    assert_eq!(app.hand.deleted_nodes, [node]);
    assert!(app.choose_node(node, NodeChoice::Close).is_none());
    let shape = || Removal {
        color: "#123".to_owned(),
        at: node,
    };
    app.click_shape(shape(), false);
    assert_eq!(app.hand.selected.len(), 1);
    assert_eq!(
        app.others(&Removal {
            color: "#456".to_owned(),
            at: to
        }),
        1
    );
    app.choose_shape(shape(), ShapeAction::ToggleSelect);
    assert!(app.hand.selected.is_empty());
    app.choose_shape(shape(), ShapeAction::MergeInto);
    assert_eq!(app.hand.selected.len(), 1);
    app.choose_shape(shape(), ShapeAction::Delete);
    assert!(app.hand.selected.is_empty() && app.hand.deleted.len() == 1);
    app.open_overlay(Overlay::Shapes, None, Some(shape()));
    assert!(app.popups.shape_menu.is_some());
    app.shapes_mode_changed();
    assert!(app.popups.shape_menu.is_none() && app.hand.selected.is_empty());
    let bar = app.toolbar(false);
    assert!(bar.open && bar.convert && bar.save && bar.close && !bar.cancel);
    let all = Actions {
        open: true,
        convert: true,
        cancel: true,
        save: true,
        preview: true,
        close: true,
        undo: true,
        redo: true,
    };
    let acts = app.allowed(all, false);
    assert!(acts.open && acts.save && acts.undo && !acts.redo && !acts.cancel);
    app.start();
    // While it runs, only Cancel, Undo and Redo act.
    let acts = app.allowed(all, false);
    assert!(acts.cancel && !acts.open && !acts.convert && !acts.save && !acts.close);
    assert_eq!(app.toolbar(false).save_hint, "Convert an image first");
}

#[test]
fn the_curves_card_draws_what_changed() {
    let mut app = converted();
    let none = CurveEvents {
        changed: false,
        auto: false,
        bow_moved: false,
        bow_auto: false,
    };
    assert!(app.curves_changed(none, None).is_none());
    let moved = CurveEvents {
        bow_moved: true,
        ..none
    };
    assert!(app.curves_changed(moved, None).is_some());
    assert!(!app.settings.curves.straighten_auto);
    let auto = CurveEvents {
        bow_auto: true,
        ..none
    };
    app.curves_changed(auto, Some(7));
    assert!(app.settings.curves.straighten_auto);
    assert_eq!(app.settings.curves.straighten_tolerance, 7);
    let pick = CurveEvents { auto: true, ..none };
    assert!(app.curves_changed(pick, None).unwrap().auto);
    assert_eq!(app.auto_offer(), (false, "Picking the tolerance\u{2026}"));
    app.toggle_simplify();
    assert!(!app.settings.curves.simplify);
    app.take_stats(true, true, Some(StatPopup::Size));
    assert_eq!(app.popups.stat, Some(StatPopup::Size));
    app.take_stats(true, true, Some(StatPopup::Size));
    assert!(app.popups.stat.is_none());
    app.take_stats(true, true, Some(StatPopup::Colors));
    app.take_stats(true, false, None);
    assert!(app.popups.stat.is_none());
}

#[test]
fn the_save_popup_drags_or_asks_where() {
    let mut app = converted();
    assert!(app.toggle_save(false));
    assert!(matches!(app.save_pressed(&Host::new(false), true, false), SaveStep::Drag));
    let ready = StageState::Ready("a.svg".to_owned());
    assert!(app.drag_out(&ready, "a.svg"));
    app.dragged(Ok(DragOutcome::Dropped), "a.svg", Some((240, 160)));
    assert_eq!(
        app.status_line(),
        "Dropped a.svg at 240 \u{00D7} 160 px."
    );
    assert!(!app.popups.save);
    assert!(!app.drag_out(&StageState::Writing, "a.svg"));
    assert_eq!(
        app.status_line(),
        "a.svg is still being written; drag it again in a moment."
    );
    assert!(!app.drag_out(&StageState::Failed("No.".to_owned()), "a.svg"));
    assert_eq!(app.status_line(), "No.");
    let mut host = Host::new(false);
    app.download(&mut host, Some(Ok(vec![1])), "a.svg", Format::Svg, None);
    assert_eq!(app.status_line(), "Downloaded a.svg.");
    assert!(host.take_commands().is_empty());
    assert!(matches!(
        app.save_pressed(&Host::new(false), false, true),
        SaveStep::Dialog(Some(_))
    ));
    assert!(!app.idle());
    assert!(matches!(app.save_pressed(&Host::new(false), true, true), SaveStep::Nothing));
    assert!(!app.toggle_save(true));
}

#[test]
fn a_vector_file_is_asked_about_then_converted_as_it_is_or_traced() {
    let mut app = Desktop::new(defaults());
    let svg = "<svg><path fill=\"#ff0000\" d=\"M 0 0\"/><path fill=\"#0000ff\" d=\"M 1 1\"/></svg>";
    assert_eq!(shape_count(svg), 2);
    let offer = offer_vector("/files/logo.svg", Some("logo.svg"), "SVG", svg, 1, false);
    assert_eq!((offer.name.as_str(), offer.side), ("logo.svg", 2000));
    assert!(trace_sides().contains(&offer.side));
    assert_eq!(
        offer_text(&offer, "30", "15"),
        "VectorMagik traces pictures, and this SVG already holds shapes: 2 on a page 30 \u{00D7} 15 pt."
    );
    assert_eq!(skipped_line(&Vec::new()), None);
    assert_eq!(
        skipped_line(&vec!["text".to_owned(), "an image".to_owned()]).as_deref(),
        Some("Left out: text; an image.")
    );
    // Converted: its shapes kept and shown.
    assert!(app.convert_offer(&offer, Ok(())));
    assert!(app.picture.size.is_none() && app.result.is_none());
    assert_eq!(app.picture.loaded_path, "logo.svg");
    assert_eq!(
        app.status_line(),
        "Converted: the SVG's 2 shapes, kept exactly. Save them as any format."
    );
    assert_eq!(foreign_title("SVG", 2), "Converted SVG \u{00B7} 2 shapes");
    // Traced instead: drawn at the chosen side and opened as a picture.
    let drawn = Loaded {
        width: 2000,
        height: 1000,
        ..picture()
    };
    assert!(app.trace_offer(&offer, Ok(drawn), 4096, "Ctrl+Enter"));
    assert_eq!(app.picture.size, Some((2000, 1000)));
    assert!(app.work.worker);
    let c = brought(&app, 1);
    app.receive_work(WorkEvent::Done(c), START);
    assert!(app.result.is_some() && app.idle());
    // One that cannot be drawn leaves what was open alone.
    let failed = Err("It cannot be drawn.".to_owned());
    assert!(!app.trace_offer(&offer, failed, 4096, "Ctrl+Enter"));
    assert!(app.result.is_some() && app.idle());
    assert_eq!(
        app.status_line(),
        "It cannot be drawn. The open image stays as it was."
    );
    // Cancel leaves what was open alone.
    app.picture.path = "other.svg".to_owned();
    app.cancel_offer();
    assert_eq!(app.picture.path, "logo.svg");
    assert!(app.picture.size.is_some());
    assert!(!app.convert_offer(&offer, Err("It cannot be drawn.".to_owned())));
    assert_eq!(app.status_line(), "It cannot be drawn.");
    assert!(app.picture.size.is_some());
}

#[test]
fn a_conversion_is_planned_from_what_is_traced() {
    let mut app = loaded();
    app.settings.prep.recolors = vec![
        vector_magik::recolor::Recolor {
            pixels: vec![0],
            rgb: [9, 9, 9],
            alpha: None,
        },
        vector_magik::recolor::Recolor {
            pixels: vec![1],
            rgb: [1, 2, 3],
            alpha: Some(0),
        },
    ];
    let working = Raster {
        width: 2,
        height: 1,
        pixels: vec![[9, 9, 9, 255], [1, 2, 3, 0]],
    };
    let chosen = Manual {
        category: ImageCategory::Photograph,
        quality: Quality::Low,
    };
    let auto = plan(
        &working,
        &app.settings.prep,
        &app.settings.conversion_settings(),
        chosen,
        true,
    );
    assert_eq!(auto.targets, [[9, 9, 9]]);
    assert!(auto.pick && !auto.opaque && auto.detected == Some(auto.preset));
    app.settings.conversion.automatic = false;
    let by_hand = plan(
        &working,
        &app.settings.prep,
        &app.settings.conversion_settings(),
        chosen,
        true,
    );
    assert!(!by_hand.pick && by_hand.detected.is_none() && by_hand.preset == chosen);
    let passes = vector_magik::process::derive(&app.derive_settings(START));
    assert_eq!(passes.len(), 5);
    assert_eq!(passes[0], Pass::WithoutShapes);
    app.hand.round_node(point(1., 1.), Reach::Tiny);
    let passes = vector_magik::process::derive(&app.derive_settings(START));
    assert_eq!(passes.last(), Some(&Pass::RoundCorners));
    app.settings.curves.simplify = false;
    assert_eq!(vector_magik::process::derive(&app.derive_settings(START)).len(), 5);
}

#[test]
fn a_preview_is_downloaded_as_a_png() {
    let mut app = converted();
    let mut host = Host::new(true);
    let rgba: Vec<u8> = (0..4 * 3 * 2).map(|i| i as u8 * 9).collect();
    download_png(&mut app, &mut host, "app-preview.png", &rgba, 3, 2);
    assert_eq!(
        app.status_line(),
        "Downloaded app preview app-preview.png"
    );
    let commands = host.take_commands();
    let [Command::Download { name, mime, data }] = &commands[..] else {
        panic!("one download");
    };
    assert_eq!((name.as_str(), *mime), ("app-preview.png", "image/png"));
    let read = image::load_from_memory(data).unwrap().into_rgba8();
    assert_eq!(read.dimensions(), (3, 2));
    assert_eq!(read.into_raw(), rgba);
    hand_out_png(&mut app, &mut host, "b.png", Err("No room.".to_owned()));
    assert_eq!(app.status_line(), "No room.");
    assert!(host.take_commands().is_empty());
}

#[test]
fn history_remembers_no_more_than_its_limit() {
    let mut app = converted();
    app.record_edits();
    for i in 0..300 {
        app.round_node(point(i as f64, 0.), Reach::Tiny);
        app.record_edits();
    }
    assert_eq!(app.history.undo.len(), 200);
    for _ in 0..200 {
        app.undo(START);
    }
    assert_eq!(app.hand.rounded.len(), 100);
    app.undo(START);
    assert_eq!(app.status_line(), "Nothing to undo.");
    assert_eq!(app.history.redo.len(), 200);
}

const NO_ACTION: Actions = Actions {
    open: false,
    convert: false,
    cancel: false,
    save: false,
    preview: false,
    close: false,
    undo: false,
    redo: false,
};

#[test]
fn a_frame_does_what_was_asked_in_order() {
    let mut app = loaded();
    let convert = Actions {
        convert: true,
        ..NO_ACTION
    };
    let acts = app.allowed(convert, false);
    let asked = app.frame(&mut Host::new(false), "a", acts, false, 1_000, None, START);
    assert!(asked.convert && app.work.worker);
    assert!(asked.open.is_none() && asked.derive.is_none());
    // It runs, then answers.
    assert_eq!(app.receive_work(WorkEvent::Waiting, START), (None, Some(50)));
    let c = brought(&app, 1);
    assert_eq!(app.receive_work(WorkEvent::Done(c), START), (None, None));
    assert!(app.result.is_some() && app.idle());
    // A quiet frame changes nothing.
    app.frame(&mut Host::new(false), "a", NO_ACTION, false, 1_100, None, START);
    let (undo, status) = (app.history.undo.len(), app.status_line());
    let asked = app.frame(&mut Host::new(false), "a", NO_ACTION, false, 1_200, None, START);
    assert!(!asked.convert && asked.derive.is_none());
    assert_eq!((app.history.undo.len(), app.status_line()), (undo, status));
    // A setting changed is recorded, rests, and converts.
    app.settings.prep.colors = Some(3);
    assert_eq!(
        app.frame(&mut Host::new(false), "a", NO_ACTION, false, 2_000, None, START).tick,
        Tick::Wait(AUTO_CONVERT_DELAY)
    );
    assert_eq!(app.history.undo.len(), undo + 1);
    assert!(app.frame(&mut Host::new(false), "a", NO_ACTION, false, 2_500, None, START).convert);
    // Escape cancels it, and the old result is drawn again.
    let cancel = Actions {
        cancel: true,
        ..NO_ACTION
    };
    let acts = app.allowed(cancel, false);
    let asked = app.frame(&mut Host::new(false), "a", acts, false, 2_600, None, START);
    assert!(asked.derive.is_some() && !asked.convert && app.result.is_some());
    assert_eq!(app.receive_stopped(true), Some(100));
    assert_eq!(app.receive_stopped(false), None);
    assert!(app.idle());
    // Undo takes the setting back.
    let undone = Actions {
        undo: true,
        ..NO_ACTION
    };
    app.frame(&mut Host::new(false), "a", undone, false, 2_700, None, START);
    assert_eq!(app.settings.prep.colors, None);
    // A dialog opens, and nothing else does while it is out.
    let open = Actions {
        open: true,
        preview: true,
        ..NO_ACTION
    };
    let asked = app.frame(&mut Host::new(false), "a", open, false, 2_800, None, START);
    assert!(asked.open.is_some() && asked.preview.is_none());
    // A worker that ends without an answer failed.
    let mut app = converted();
    app.start();
    app.receive_work(WorkEvent::Gone, START);
    assert_eq!(
        app.status_line(),
        "Conversion worker stopped unexpectedly."
    );
    app.start();
    app.receive_work(WorkEvent::Failed("Too dark.".to_owned()), START);
    assert_eq!(app.status_line(), "Too dark.");
    // Convert and Undo together start one conversion.
    let both = Actions {
        convert: true,
        undo: true,
        ..NO_ACTION
    };
    app.frame(&mut Host::new(false), "a", both, false, 3_000, None, START);
    assert!(app.work.worker);
}

#[test]
fn a_tab_asks_the_page_for_what_a_window_asks_the_system() {
    let mut app = converted();
    let mut host = Host::new(true);
    let both = Actions {
        open: true,
        preview: true,
        ..NO_ACTION
    };
    let asked = app.frame(&mut host, "cat", both, false, 1_000, None, START);
    assert!(asked.open.is_none() && asked.preview.is_none() && app.idle());
    assert_eq!(asked.picture.as_deref(), Some("cat-app-preview.png"));
    assert_eq!(app.status_line(), "Choose an image in the file chooser.");
    assert_eq!(
        host.take_commands(),
        [Command::OpenPicker, Command::Screenshot]
    );
    // What a window drags out or asks a place for, a tab downloads.
    app.popups.save = true;
    assert!(matches!(
        app.save_pressed(&host, true, false),
        SaveStep::Download
    ));
    assert!(matches!(app.save_dialog(&host), SaveStep::Download));
    let file = || Some(Ok(vec![1, 2]));
    app.download(&mut host, file(), "cat.pdf", Format::Pdf, Some((24, 16)));
    assert!(!app.popups.save);
    assert_eq!(
        app.status_line(),
        "Downloaded cat.pdf at 24 \u{00D7} 16 px."
    );
    assert_eq!(
        host.take_commands(),
        [Command::Download {
            name: "cat.pdf".to_owned(),
            mime: "application/pdf",
            data: vec![1, 2],
        }]
    );
    app.download(&mut host, None, "cat.pdf", Format::Pdf, None);
    assert_eq!(
        app.status_line(),
        "Nothing to save: convert the image first."
    );
    let failed = Some(Err("Too large.".to_owned()));
    app.download(&mut host, failed, "cat.pdf", Format::Pdf, None);
    assert_eq!(app.status_line(), "Too large.");
    assert!(host.take_commands().is_empty());
    // A window's picture is written to the disk.
    preview_saved(&mut app, "d.png", Ok(()));
    assert_eq!(app.status_line(), "Saved app preview d.png");
    preview_saved(&mut app, "d.png", Err("No room.".to_owned()));
    assert_eq!(app.status_line(), "No room.");
}

const RESTING: Pointing = Pointing {
    vector: true,
    shapes: false,
    drag_started: false,
    dragged: false,
    released: true,
    pressed: None,
    picked: None,
    carried: None,
    shape: false,
    hovered: true,
    pannable: true,
    ctrl: false,
    unrounded: true,
};

#[test]
fn a_drag_on_a_node_carries_it_and_anywhere_else_it_pans() {
    let mut app = converted();
    let node = point(5., 5.);
    app.round_node(node, Reach::Medium);
    let pressed = app.point(Pointing {
        drag_started: true,
        dragged: true,
        released: false,
        pressed: Some(node),
        picked: Some(node),
        ..RESTING
    });
    assert_eq!(pressed.begun.unwrap().rounding, Some(Reach::Medium));
    assert!(!pressed.pans && pressed.node.is_none() && pressed.derive.is_none());
    assert_eq!(pressed.cursor, Some(Cursor::Grabbing));
    assert_eq!(app.popups.node_drag, Some(node));
    let to = point(8., 1.);
    let dropped = app.point(Pointing {
        dragged: true,
        carried: Some(to),
        ..RESTING
    });
    assert!(dropped.derive.is_some() && !dropped.pans);
    assert_eq!(app.hand.moved_from(&to), Some(node));
    assert_eq!(app.hand.rounding_of(&to), Some(Reach::Medium));
    assert_eq!(app.popups.node_drag, None);
    // Let go where it was, it is not moved again.
    let moved = app.hand.moved.len();
    app.point(Pointing {
        drag_started: true,
        released: false,
        pressed: Some(to),
        ..RESTING
    });
    assert_eq!(app.point(RESTING).derive, None);
    assert_eq!(app.hand.moved.len(), moved);
    // Off the nodes, the drag moves the view; over shapes, nodes stay.
    let panned = app.point(Pointing {
        drag_started: true,
        dragged: true,
        released: false,
        ..RESTING
    });
    assert!(panned.pans && panned.begun.is_none());
    let shape = app.point(Pointing {
        shapes: true,
        drag_started: true,
        pressed: Some(node),
        shape: true,
        ..RESTING
    });
    assert!(shape.shape && shape.begun.is_none());
    assert_eq!(shape.cursor, Some(Cursor::Crosshair));
    let over = app.point(Pointing {
        picked: Some(node),
        ..RESTING
    });
    assert_eq!((over.node, over.cursor), (Some(node), Some(Cursor::PointingHand)));
    assert_eq!(app.point(RESTING).cursor, Some(Cursor::Grab));
    assert_eq!(
        app.point(Pointing {
            pannable: false,
            ..RESTING
        })
        .cursor,
        None
    );
}

#[test]
fn the_cards_draw_the_result_or_the_one_it_replaces() {
    let mut app = converted();
    let mut window = Window::new();
    let layers = app.layers(&window, true, true, true, false);
    assert_eq!(
        (layers.picture, layers.nodes, layers.tile),
        (Drawn::Vector, Layer::Result, Layer::Result)
    );
    assert!(layers.live && !layers.shapes && !layers.sharp && !layers.drop);
    window.shapes_mode = true;
    let layers = app.layers(&window, true, true, false, false);
    assert!(layers.shapes && !layers.live);
    window.shapes_mode = false;
    app.start();
    let layers = app.layers(&window, true, true, false, false);
    assert_eq!((layers.nodes, layers.tile), (Layer::Replaced, Layer::Replaced));
    assert!(!layers.live);
    let mut app = loaded();
    let layers = app.layers(&window, false, false, true, true);
    assert_eq!(layers.picture, Drawn::Opened);
    assert!(layers.sharp && layers.drop && layers.nodes == Layer::Hidden);
    assert!(!layers.traced_offered);
    app.settings.prep.colors = Some(4);
    app.start();
    let c = brought(&app, 1);
    app.accept(c, START);
    window.engine_input = true;
    let layers = app.layers(&window, false, true, false, false);
    assert_eq!(layers.picture, Drawn::Traced);
    assert!(layers.traced_offered);
}

#[test]
fn a_picture_of_the_window_shows_the_settings_asked_for() {
    let photo = Manual {
        category: ImageCategory::Photograph,
        quality: Quality::Low,
    };
    let asked = |chosen, simplify, straighten, sliders| Snapshot {
        nodes: false,
        prep: Preparation::new(),
        chosen,
        optimizer: true,
        simplify,
        straighten,
        regularize: false,
        primitives: true,
        sliders,
    };
    let chosen = Chosen {
        manual: photo,
        overlap_opaque_photos: true,
    };
    let bow = 1.5f32.to_bits();
    let (app, window) = Desktop::snapshot_state(
        defaults(),
        asked(Some(chosen), Some(7), Some(Bow::Pixels(bow)), Some(sliders())),
    );
    let c = app.settings.conversion;
    assert!(!c.automatic && c.advanced_on && c.optional_optimizer && c.overlap_opaque_photos);
    assert_eq!(c.category, ImageCategory::Photograph);
    let curves = app.settings.curves;
    assert!(curves.simplify && curves.straighten && !curves.straighten_auto);
    assert_eq!((curves.simplify_tolerance, curves.straighten_tolerance), (7, bow));
    assert!(!curves.regularize && curves.primitives);
    assert_eq!(window.view, View::SideBySide);
    assert!(!window.nodes);
    let (app, _) =
        Desktop::snapshot_state(defaults(), asked(None, None, Some(Bow::Auto), None));
    let curves = app.settings.curves;
    assert!(app.settings.conversion.automatic && !curves.simplify);
    assert!(curves.straighten && curves.straighten_auto);
    // The sticker, the nearest nodes and the background.
    let mut app = loaded();
    app.choose_sticker(StickerChoice::default());
    assert!(!app.settings.sticker.on);
    app.choose_sticker(StickerChoice::Sized);
    assert!(app.settings.sticker.on && app.settings.sticker.border == 3f64.to_bits());
    app.choose_sticker(StickerChoice::Custom(sticker()));
    assert!(app.settings.sticker.on && app.settings.sticker.border == 4f64.to_bits());
    let nodes = vec![point(0., 0.), point(5., 5.)];
    let away = vec![9f64.to_bits(), 2f64.to_bits()];
    assert_eq!(
        app.round_nearest_now(&nodes, &away, Reach::Wide),
        Err("Convert an image before rounding a node")
    );
    let places = vec!["0.00, 0.00".to_owned(), "5.00, 5.00".to_owned()];
    let free = || vec![None, None];
    assert_eq!(
        app.delete_nearest_now(&nodes, &away, &free(), &places),
        Err("Convert an image before deleting a node".to_owned())
    );
    let mut app = converted();
    assert!(app.round_nearest_now(&nodes, &away, Reach::Wide).unwrap().is_some());
    assert_eq!(app.hand.rounding_of(&nodes[1]), Some(Reach::Wide));
    assert_eq!(
        app.round_nearest_now(&Vec::new(), &Vec::new(), Reach::Wide),
        Err("The document has no nodes")
    );
    let held = vec![None, Some("it is a junction".to_owned())];
    assert_eq!(
        app.delete_nearest_now(&nodes, &away, &held, &places),
        Err("The node at 5.00, 5.00 cannot be deleted: it is a junction".to_owned())
    );
    assert!(app.delete_nearest_now(&nodes, &away, &free(), &places).is_ok());
    assert_eq!(app.hand.deleted_nodes, [nodes[1]]);
    let shape = || Removal {
        color: "#fff".to_owned(),
        at: nodes[0],
    };
    assert!(app.cut_background_now(Vec::new()).is_err());
    assert_eq!(app.cut_background_now(vec![shape()]).unwrap().0, 1);
    assert_eq!(app.hand.deleted.len(), 1);
}

#[test]
fn a_tab_starts_with_what_the_page_kept() {
    let (app, window, switches) =
        Desktop::in_browser(defaults(), "hold_compare=on\nauto_convert=off\n");
    assert!(!app.auto.on && window.hold && window.nodes && switches.stacked);
    assert_eq!(window.view, View::Overlay);
    // Settled, the drawing is what saving would write.
    let svg = || Some(Ok("<svg/>".to_owned()));
    let mut app = converted();
    assert_eq!(app.settled_svg(false, svg()).as_deref(), Some("<svg/>"));
    assert_eq!(app.settled_svg(true, svg()), None);
    assert_eq!(app.settled_svg(false, Some(Err("No.".to_owned()))), None);
    app.reapply();
    assert_eq!(app.settled_svg(false, svg()), None);
}

#[test]
fn conversion_finishes_at_preview_without_opening_a_save_dialog() {
    let asked = Snapshot {
        nodes: false,
        prep: Preparation::new(),
        chosen: None,
        optimizer: false,
        simplify: Some(START),
        straighten: Some(Bow::Auto),
        regularize: true,
        primitives: true,
        sliders: None,
    };
    let (mut app, _) = Desktop::snapshot_state(defaults(), asked);
    app.picture.path = "logo.png".to_owned();
    app.take_loaded(Ok(picture()), 4096, "Ctrl+Enter");
    assert!(app.settings.conversion.automatic && app.result.is_none());
    assert!(app.start());
    let c = brought(&app, 1);
    let preset = c.result.traced.preset;
    assert_eq!(app.receive_work(WorkEvent::Done(c), START), (None, None));
    assert!(app.result.is_some() && !app.work.errand && !app.popups.save);
    assert_eq!(app.status.kind, StatusKind::Done);
    assert_eq!(app.status_line(), "Vector ready in 1.23 s.");
    assert_eq!(app.result.unwrap().traced.preset, preset);
}
