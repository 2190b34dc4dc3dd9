use egui::Color32;
use vector_magik::auto::{category_name, detect};
use vector_magik::cards::{
    advanced_summary, bow_label, choose_background, color_choice, colors_label,
    conversion_summary, curves_note, curves_summary, detected_line, merge_offer, node_buttons,
    nodes_note, nodes_summary, optimizer_note, shapes_note, shapes_summary, shown_colour,
    sticker_note, sticker_summary, Named,
};
use vector_magik::chrome::{
    drop_offer, merge_label, nodes_tip, save_note, save_tip, segments_tip, size_text, size_tip,
    status_text,
    swatch_tip, theme_tip,
};
use vector_magik::colour::{parse_hex, window_icon, Shade};
use vector_magik::desktop::files::{dropped_name, StageState};
use vector_magik::desktop::{StatusKind, Traced};
use vector_magik::dialog::{dialog_answer, open_filter};
use vector_magik::format::{Format, OutputKind};
use vector_magik::hand::{Point, Rounded};
use vector_magik::licence::{
    activate_hint, licence_card, time_left, Licence, LicenceUse, Page, Redeemed, Standing, Stored,
    TRIAL_SECONDS,
};
use vector_magik::look::ThemeChoice;
use vector_magik::picture::{ImageCategory, Quality, Raster};
use vector_magik::platform::{Command, Host, Served, Server};
use vector_magik::prefs::{
    licence_lines, parse_appearance, parse_licence, parse_prefs, write_prefs, Appearance, Base,
    Place, Saved, Surroundings, Switches,
};
use vector_magik::reach::Reach;
use vector_magik::recolor::Island;
use vector_magik::settings::{Manual, Rgb, Sliders};
use vector_magik::shown::View;
use vector_magik::window::{
    card_detail, drop_zone, empty_state, ghosts, nearest_node, node_heading, node_tip,
    pick_nearest, rail_bar, receive_tile, shape_tip, stacked_layout, tile_rest, welcome_text,
    Start, TileKey, Wanted, Window,
};

fn paint(shade: Shade) -> Color32 {
    Color32::from_rgba_premultiplied(shade.r, shade.g, shade.b, shade.a)
}

#[test]
fn fill_colors_parse_and_the_rest_is_grey() {
    assert_eq!(
        paint(parse_hex("#4fd1c5")),
        Color32::from_rgb(0x4f, 0xd1, 0xc5)
    );
    assert_eq!(
        paint(parse_hex("#4fd1c580")),
        Color32::from_rgba_unmultiplied(0x4f, 0xd1, 0xc5, 0x80)
    );
    assert_eq!(paint(parse_hex("none")), Color32::from_gray(128));
    assert_eq!(Format::from_filter_index(2), Format::Pdf);
    assert_eq!(Format::Eps.filter_index(), 3);
}

#[test]
fn every_colour_and_opacity_is_multiplied_as_it_is_painted() {
    for a in 0..=255u8 {
        for c in 0..=255u8 {
            let shade = parse_hex(&format!("#{c:02x}00ff{a:02X}"));
            let scale = |v: u8| ((v as u32 * a as u32 + 127) / 255) as u8;
            assert_eq!(
                (shade.r, shade.g, shade.b, shade.a),
                (scale(c), 0, scale(255), a),
                "{c} {a}"
            );
        }
    }
    // What cannot be read.
    let grey = Shade {
        r: 128,
        g: 128,
        b: 128,
        a: 255,
    };
    for text in [
        "",
        "#",
        "#12345",
        "#1234567",
        "#123456789",
        "#gg0000",
        "#12é45",
        "#12345é",
        "#4fd1c5zz",
        "#123456é",
        "#123456+f",
        "#+12345",
        "123456",
        "##123456",
    ] {
        assert_eq!(parse_hex(text), grey, "{text}");
    }
    let opaque = Shade {
        r: 0x12,
        g: 0x34,
        b: 0x56,
        a: 255,
    };
    for text in ["#123456", " #123456 ", "#123456ff", "#123456FF"] {
        assert_eq!(parse_hex(text), opaque, "{text}");
    }
}

#[test]
fn an_icon_is_parted_from_its_opacity() {
    let icon = window_icon(&vec![[64, 32, 0, 128], [9, 9, 9, 0], [1, 2, 3, 255]]);
    assert_eq!(icon, [[128, 64, 0, 128], [9, 9, 9, 0], [1, 2, 3, 255]]);
}

#[test]
fn formats_stand_at_their_filters() {
    for (i, format) in Format::all().into_iter().enumerate() {
        assert_eq!(format.filter_index(), i as u32 + 1);
        assert_eq!(Format::from_filter_index(i as u32 + 1), format);
        assert_eq!(format.label().to_lowercase(), format.extension());
        assert!(!format.hint().is_empty());
    }
    assert_eq!(Format::from_filter_index(0), Format::Svg);
    assert_eq!(Format::from_filter_index(8), Format::Svg);
    assert_eq!(Format::Emf.kind(), OutputKind::Emf);
    assert_eq!(Format::Dxf.mime(), "image/vnd.dxf");
}

#[test]
fn layout_stacks_only_when_it_shows_a_larger_picture() {
    let stacked =
        |x: i64, y: i64, n: u32, d: u32| stacked_layout(x * 64, y * 64, n, d);
    // Square images stay side by side in a landscape window.
    assert!(!stacked(910, 690, 1, 1));
    assert!(!stacked(560, 520, 1, 1));
    // Tall images never stack.
    assert!(!stacked(910, 690, 1, 2));
    // Wide images and portrait windows stack.
    assert!(stacked(910, 690, 3, 1));
    assert!(stacked(600, 1200, 1, 1));
}

#[test]
fn tiny_rounding_is_the_gentlest_reach() {
    let all = Reach::all();
    assert_eq!(all[0], Reach::Tiny);
    assert!(all.windows(2).all(|w| w[0].percent() < w[1].percent()));
    assert_eq!(Reach::parse(" Tiny "), Some(Reach::Tiny));
}

fn no_licence() -> Stored {
    Stored::default()
}

/// A key that is shaped like one.
fn shaped(key: Option<String>) -> Option<String> {
    key.filter(|k| k.starts_with("esk_"))
}

fn stored(text: &str) -> Stored {
    let (key, certificate) = licence_lines(text);
    parse_licence(shaped(key), certificate)
}

fn switches(hold: bool, auto: bool, stacked: bool) -> Switches {
    Switches {
        hold,
        auto,
        stacked,
    }
}

#[test]
fn the_window_preferences_round_trip_and_ignore_what_they_do_not_know() {
    let dark = Appearance {
        theme: ThemeChoice::Dark,
        answer: None,
    };
    let text = write_prefs(switches(true, false, true), &no_licence(), dark);
    assert_eq!(
        parse_prefs(&text, switches(false, true, false)),
        switches(true, false, true)
    );
    assert!(!text.contains("licence"));
    assert_eq!(parse_appearance(&text), dark);
    // Light or dark and the first-run answer ride along; words not
    // understood keep the defaults.
    let chosen = Appearance {
        theme: ThemeChoice::System,
        answer: Some(LicenceUse::Commercial),
    };
    let text = write_prefs(switches(true, false, false), &no_licence(), chosen);
    assert_eq!(parse_appearance(&text), chosen);
    // A free commercial trial keeps when it began.
    let trial = Appearance {
        theme: ThemeChoice::Dark,
        answer: Some(LicenceUse::Trial(1_758_700_000)),
    };
    let text = write_prefs(switches(true, false, false), &no_licence(), trial);
    assert!(text.contains("licence_use=trial:1758700000\r\n"), "{text}");
    assert_eq!(parse_appearance(&text), trial);
    assert_eq!(
        parse_appearance("look=studio\ntheme=sepia\nlicence_use=maybe\n"),
        dark
    );
    // A licence rides along; a key that is not shaped like one is dropped,
    // and its certificate with it.
    let licence = Stored {
        key: "esk_ABCDE-FGHIJ-KLMNO-PQRS1".into(),
        certificate: "payload.signature".into(),
    };
    let text = write_prefs(switches(true, false, false), &licence, dark);
    assert_eq!(
        parse_prefs(&text, switches(false, true, true)),
        switches(true, false, false)
    );
    let read = stored(&text);
    assert_eq!(read.key, licence.key);
    assert_eq!(read.certificate, licence.certificate);
    let dropped = stored("licence_key=nonsense\nlicence_certificate=a.b\n");
    assert!(dropped.key.is_empty() && dropped.certificate.is_empty());
    assert_eq!(
        parse_prefs(
            "junk\nhold_compare=maybe\nauto_convert=off\nother=on\n",
            switches(true, true, true)
        ),
        switches(true, false, true)
    );
    // They are written when changed.
    let mut saved = Saved {
        switches: switches(false, true, false),
        licence: no_licence(),
        appearance: dark,
    };
    let mut window = Host::new(false);
    assert!(saved
        .save_prefs(&mut window, switches(false, true, false), &no_licence(), dark)
        .is_none());
    let text = saved
        .save_prefs(&mut window, switches(true, true, false), &no_licence(), dark)
        .unwrap();
    assert_eq!(
        parse_prefs(&text, switches(false, false, true)),
        switches(true, true, false)
    );
    assert!(saved
        .save_prefs(&mut window, switches(true, true, false), &no_licence(), dark)
        .is_none());
    // A page keeps them for a tab.
    let mut tab = Host::new(true);
    assert!(saved
        .save_prefs(&mut tab, switches(false, true, true), &no_licence(), dark)
        .is_none());
    assert_eq!(
        tab.take_commands(),
        [Command::StorePrefs(write_prefs(
            switches(false, true, true),
            &no_licence(),
            dark
        ))]
    );
    assert!(saved
        .save_prefs(&mut tab, switches(false, true, true), &no_licence(), dark)
        .is_none());
    assert!(tab.take_commands().is_empty());
}

#[test]
fn a_refused_typed_key_stays_out_and_a_refused_stored_one_ends_the_licence() {
    let mut licence = Licence::new(no_licence(), None);
    // Nothing stored: nothing is asked of the network.
    assert!(!licence.renew(true));
    assert!(licence.reply.is_none() && licence.renewed);
    let key = "esk_ABCDE-FGHIJ-KLMNO-PQRS1";
    let refused =
        || Redeemed::Refused("That key does not exist, has expired, or has been revoked.".into());
    licence.take_redeem(key.into(), true, refused());
    assert!(licence.stored.key.is_empty());
    assert!(licence.note.as_deref().unwrap().contains("does not exist"));
    let stored = || Stored {
        key: key.into(),
        certificate: "a.b".into(),
    };
    licence.stored = stored();
    licence.take_redeem(key.into(), false, refused());
    assert!(licence.stored.key.is_empty() && licence.stored.certificate.is_empty());
    assert!(licence
        .note
        .as_deref()
        .unwrap()
        .starts_with("The license has ended"));
    // No connection keeps what is stored.
    licence.stored = stored();
    licence.take_redeem(
        key.into(),
        false,
        Redeemed::Unreachable("The license server cannot be reached.".into()),
    );
    assert_eq!(licence.stored.key, key);
    // A certificate this app cannot use changes nothing either.
    licence.take_redeem(
        key.into(),
        true,
        Redeemed::Certificate {
            certificate: "c.d".into(),
            until: None,
        },
    );
    assert_eq!(licence.stored.certificate, "a.b");
    assert!(licence.note.as_deref().unwrap().contains("cannot use"));
    // One that proves the key answers the question.
    licence.ask = true;
    assert!(licence.start_redeem(key, true));
    assert!(!licence.start_redeem(key, true));
    let status = licence.receive(Redeemed::Certificate {
        certificate: "e.f".into(),
        until: Some("1 March 2027".into()),
    });
    assert_eq!(
        status.as_deref(),
        Some("Commercial license confirmed until 1 March 2027.")
    );
    assert!(!licence.ask && licence.use_ == Some(LicenceUse::Commercial));
    assert_eq!(licence.stored.certificate, "e.f");
    assert!(licence.receive(refused()).is_none());
    licence.check_stopped();
    assert_eq!(
        licence.note.as_deref(),
        Some("The license check stopped; try again.")
    );
    licence.remove();
    assert!(licence.stored.key.is_empty() && licence.note.is_none());
    licence.use_personally();
    assert_eq!(licence.use_, Some(LicenceUse::Personal));
    assert!(!licence.opened);
    assert!(licence
        .open_licence_url(Page::Buy)
        .starts_with("Opened the checkout"));
    assert!(licence.opened);
}

#[test]
fn the_first_run_question_is_asked_once_and_an_answer_or_a_licence_ends_it() {
    let now = 1_760_000_000;
    let mut licence = Licence::new(no_licence(), None);
    assert!(!licence.ask);
    licence.ask_licence_if_new(now);
    assert!(licence.ask);
    // The Commercial tile opens the key field; the question stays.
    licence.choose_commercial();
    assert!(licence.ask && licence.prompt_key);
    // An answer kept in the preferences, or a stored licence, means it is
    // not asked again.
    licence.use_ = Some(LicenceUse::Personal);
    licence.ask_licence_if_new(now);
    assert!(!licence.ask);
    // A free day of commercial use is not asked about while it runs, and
    // once it has ended the question comes back (without a second trial).
    licence.use_ = Some(LicenceUse::Trial(now - 3600));
    licence.ask_licence_if_new(now);
    assert!(!licence.ask);
    assert_eq!(licence.use_.unwrap().trial_left(now), Some(23 * 3600));
    licence.use_ = Some(LicenceUse::Trial(now - TRIAL_SECONDS - 1));
    licence.ask_licence_if_new(now);
    assert!(licence.ask);
    assert_eq!(
        licence.prompt(now),
        (
            "Your free day of commercial use has ended. How will you use it now?",
            false
        )
    );
    licence.ask = false;
    licence.use_ = None;
    licence.stored.key = "esk_ABCDE-FGHIJ-KLMNO-PQRS1".into();
    licence.ask_licence_if_new(now);
    assert!(!licence.ask);
    // A key that is refused leaves the question open with the reason shown.
    licence.stored = no_licence();
    licence.ask_licence_if_new(now);
    licence.take_redeem(
        "esk_ABCDE-FGHIJ-KLMNO-PQRS1".into(),
        true,
        Redeemed::Refused("That key is not known.".into()),
    );
    assert!(licence.ask && licence.note.is_some());
    licence.answer(LicenceUse::Trial(now));
    assert!(!licence.ask && !licence.prompt_key);
    assert_eq!(licence.prompt(now), ("How will you use it?", true));
}

#[test]
fn licence_words_and_times_read_well() {
    for use_ in [
        LicenceUse::Personal,
        LicenceUse::Commercial,
        LicenceUse::Trial(0),
        LicenceUse::Trial(1_758_700_000),
        LicenceUse::Trial(-5),
        LicenceUse::Trial(i64::MAX),
        LicenceUse::Trial(i64::MIN),
    ] {
        assert_eq!(LicenceUse::from_word(&use_.word()), Some(use_));
    }
    assert_eq!(
        LicenceUse::from_word(" trial:+12 "),
        Some(LicenceUse::Trial(12))
    );
    for word in ["", "trial:", "trial:x", "trial:9223372036854775808", "Personal"] {
        assert_eq!(LicenceUse::from_word(word), None, "{word}");
    }
    assert_eq!(LicenceUse::Personal.trial_left(0), None);
    assert_eq!(LicenceUse::Trial(100).trial_left(0), Some(TRIAL_SECONDS));
    assert_eq!(LicenceUse::Trial(i64::MAX).trial_left(i64::MIN), Some(TRIAL_SECONDS));
    assert_eq!(time_left(23 * 3600), "23 hours");
    assert_eq!(time_left(23 * 3600 - 1), "23 hours");
    assert_eq!(time_left(3600), "1 hour");
    assert_eq!(time_left(3599), "60 minutes");
    assert_eq!(time_left(61), "2 minutes");
    assert_eq!(time_left(5), "1 minute");
    assert_eq!(time_left(0), "1 minute");
}

#[test]
fn the_licence_card_says_what_is_in_force() {
    let now = 1_760_000_000;
    let card = |standing: &Standing, use_| {
        licence_card(standing, use_, now, "esk_A…S1", "$9 a month", true, false)
    };
    let personal = card(&Standing::Personal, None);
    assert_eq!(personal.summary, "Personal use");
    assert!(personal.field && !personal.personal && !personal.manage);
    assert_eq!(personal.page, Some(Page::Buy));
    assert!(personal.offer.unwrap().ends_with("A commercial license is $9 a month."));
    let trial = card(
        &Standing::Personal,
        Some(LicenceUse::Trial(now - TRIAL_SECONDS + 7200)),
    );
    assert_eq!(trial.summary, "Commercial trial \u{00B7} 2 hours left");
    assert!(trial.personal);
    let over = card(&Standing::Personal, Some(LicenceUse::Trial(0)));
    assert_eq!(over.summary, "Commercial trial ended \u{00B7} add your key");
    let keyless = card(&Standing::Personal, Some(LicenceUse::Commercial));
    assert_eq!(keyless.summary, "Commercial \u{00B7} add your key");
    let proved = Standing::Commercial {
        seats: 1,
        licence: "0123456789".into(),
        until: "1 March 2027".into(),
    };
    let proved = card(&proved, Some(LicenceUse::Commercial));
    assert_eq!(proved.summary, "Commercial \u{00B7} 1 seat");
    assert_eq!(
        proved.key_note.as_deref(),
        Some("Commercial license, 1 seat. Key esk_A…S1 \u{00B7} license 01234567.")
    );
    assert_eq!(
        proved.until.as_deref(),
        Some("Confirmed until 1 March 2027; it renews by itself while the subscription runs.")
    );
    let waiting = card(&Standing::Unproven, None);
    assert_eq!(waiting.summary, "Commercial \u{00B7} not confirmed");
    assert!(waiting.retry && waiting.manage && waiting.offer.is_none());
    let soon = licence_card(&Standing::Personal, None, now, "", "$9", false, true);
    assert!(soon.soon && !soon.field && soon.page == Some(Page::Details));
    assert_eq!(activate_hint(true), "Waiting for the license server.");
}

#[test]
fn light_and_dark_build_their_style_and_a_frame_draws_it() {
    let mut dark = true;
    assert!(vector_magik::look::set(&mut dark, false) && !dark);
    assert!(!vector_magik::look::set(&mut dark, false));
    assert!(vector_magik::look::set(&mut dark, true) && dark);
    for (theme, system, expected) in [
        (ThemeChoice::Light, true, false),
        (ThemeChoice::Dark, false, true),
        (ThemeChoice::System, true, true),
        (ThemeChoice::System, false, false),
    ] {
        assert_eq!(theme.is_dark(system), expected, "{theme:?}");
    }
    for theme in ThemeChoice::all() {
        assert_eq!(ThemeChoice::from_word(theme.word()), Some(theme));
        assert_eq!(theme.label().to_lowercase(), theme.word());
        assert!(!theme_tip(theme).is_empty());
    }
    assert_eq!(ThemeChoice::from_word(" dark\n"), Some(ThemeChoice::Dark));
    assert_eq!(ThemeChoice::from_word("Dark"), None);
}

#[test]
fn hold_shows_the_other_picture_only_while_it_is_held() {
    let mut window = Window::new();
    window.view = View::Overlay;
    window.overlay_vector = true;
    window.hold = true;
    window.take_peek(true, false);
    window.press(true, false);
    assert_eq!(window.peek, Some(false));
    assert!(window.overlay_vector, "held, not switched");
    window.take_peek(true, false);
    assert_eq!(window.peek, Some(false), "still held");
    assert!(!window.vector_shown(true));
    window.take_peek(false, false);
    assert_eq!(window.peek, None);
    assert!(window.overlay_vector && window.vector_shown(true));
    // Without Hold, B switches to the bitmap and stays.
    window.hold = false;
    window.take_peek(true, false);
    window.press(true, false);
    assert!(!window.overlay_vector && window.peek.is_none());
    assert!(!window.vector_shown(true) && !window.vector_shown(false));
}

#[test]
fn holding_the_original_button_keeps_the_original_until_let_go() {
    let mut window = Window::new();
    window.view = View::Overlay;
    window.overlay_vector = true;
    window.hold = true;
    for _ in 0..90 {
        window.take_peek(false, false);
        window.take_buttons(true, false);
    }
    window.take_peek(false, false);
    assert_eq!(window.peek, Some(false), "let go by itself while held");
    window.take_buttons(false, false);
    window.take_peek(false, false);
    assert_eq!(window.peek, None);
    // Without Hold, a click switches.
    window.hold = false;
    window.take_buttons(true, false);
    assert!(!window.overlay_vector && window.peek_button.is_none());
    assert_eq!(window.compare_tips().0, "Show the original  (B)");
}

#[test]
fn the_open_dialog_lists_every_format_the_loader_decodes() {
    let mut listed: Vec<&str> = open_filter()
        .split(';')
        .map(|pattern| pattern.strip_prefix("*.").unwrap())
        .collect();
    let mut decoded: Vec<&str> = image::ImageFormat::all()
        .filter(|format| format.reading_enabled())
        .flat_map(|format| format.extensions_str().iter().copied())
        .collect();
    listed.sort_unstable();
    decoded.sort_unstable();
    assert_eq!(listed, decoded);
}

#[test]
fn a_dialog_answers_with_its_filter_and_path() {
    assert_eq!(
        dialog_answer("\u{feff}2\nC:\\a b.svg"),
        Some(("C:\\a b.svg".to_owned(), 2))
    );
    assert_eq!(
        dialog_answer("+7\nx\ny"),
        Some(("x\ny".to_owned(), 7))
    );
    for text in ["", "1\n", "1", "-1\nx", "\nx", "4294967296\nx", "one\nx"] {
        assert_eq!(dialog_answer(text), None, "{text}");
    }
}

#[test]
fn the_page_is_asked_and_the_latest_request_wins() {
    let mut host = Host::new(true);
    host.ask(Command::OpenPicker);
    host.ask(Command::Screenshot);
    assert_eq!(
        host.take_commands(),
        [Command::OpenPicker, Command::Screenshot]
    );
    assert!(host.take_commands().is_empty());
    assert!(!host.has_pending());
    host.jobs.push(4);
    host.servers.push(Server {
        sent: vec![1, 2, 3],
        closed: false,
        heard: true,
        latest: None,
    });
    host.servers.push(Server {
        sent: vec![9],
        closed: true,
        heard: true,
        latest: None,
    });
    assert!(host.has_pending());
    assert_eq!(host.servers.len(), 1);
    host.servers[0].sent.push(7);
    assert_eq!(host.run_pending(), (vec![4], vec![7]));
    assert!(!host.has_pending());
    assert_eq!(host.run_pending(), (vec![], vec![]));
    let mut unheard = Server {
        sent: vec![1],
        closed: false,
        heard: false,
        latest: None,
    };
    assert_eq!(unheard.serve(true), (Served::Gone, Some(1)));
    // A window asks nothing.
    let mut window = Host::new(false);
    window.ask(Command::StorePrefs("a=b".to_owned()));
    window.jobs.push(1);
    assert!(window.take_commands().is_empty() && !window.has_pending());
    assert_eq!(window.run_pending(), (vec![], vec![]));
}

#[test]
fn the_pointer_picks_the_nearest_node_in_reach() {
    let bits = |d: f32| d.to_bits();
    let list = vec![bits(9.), bits(3.), bits(2.5), bits(2.5)];
    assert_eq!(pick_nearest(&list, bits(8.)), Some(2));
    assert_eq!(pick_nearest(&list, bits(2.)), None);
    assert_eq!(
        nearest_node(true, &vec![7f64.to_bits(), 1f64.to_bits(), 1f64.to_bits()]),
        Ok(1)
    );
    assert_eq!(nearest_node(true, &Vec::new()), Err("The document has no nodes"));
    assert_eq!(
        nearest_node(false, &vec![1]),
        Err("Convert an image before rounding a node")
    );
    let p = |x: f64| Point {
        x: x.to_bits(),
        y: 0,
    };
    let rounded = vec![
        Rounded {
            at: p(1.),
            reach: Reach::Tiny,
        },
        Rounded {
            at: p(2.),
            reach: Reach::Wide,
        },
    ];
    assert_eq!(ghosts(&rounded, &vec![p(2.)]), [p(1.)]);
    assert_eq!(
        node_tip(Some(Reach::Tiny), true),
        "Rounded (Tiny). Click to restore \u{00B7} drag to move \u{00B7} right-click for more"
    );
    assert!(node_tip(None, true).starts_with("Moved."));
    assert_eq!(node_heading(None, false), "Corner node");
    assert_eq!(
        node_heading(Some(Reach::Wide), true),
        "Moved \u{00B7} rounded corner \u{00B7} Wide"
    );
    assert_eq!(
        shape_tip("#fff", true, true),
        "#fff  \u{00B7}  click to delete"
    );
}

#[test]
fn a_tile_waits_for_the_view_to_rest() {
    let key = TileKey {
        version: 3,
        scale: 1,
        ppp: 1,
        x: 0,
        y: 0,
        width: 10,
        height: 10,
    };
    let mut wanted: Option<Wanted> = None;
    assert_eq!(tile_rest(&mut wanted, key, 1_000, 150), Some(150));
    assert_eq!(tile_rest(&mut wanted, key, 1_100, 150), Some(50));
    assert_eq!(tile_rest(&mut wanted, key, 1_150, 150), None);
    assert_eq!(tile_rest(&mut wanted, key, 1_000, 0), None);
    assert_eq!(receive_tile(key, 3, Some(key)), (true, None));
    assert_eq!(receive_tile(key, 4, Some(key)), (false, Some(key)));
    let mut since = None;
    assert_eq!(rail_bar(&mut since, true, false, 100), (false, Some(350)));
    assert_eq!(rail_bar(&mut since, true, false, 450), (true, None));
    assert_eq!(rail_bar(&mut since, false, false, 460), (false, None));
    assert!(since.is_none());
    assert_eq!(rail_bar(&mut since, false, true, 500), (true, None));
}

#[test]
fn the_cards_say_what_is_in_force() {
    let art = Manual {
        category: ImageCategory::AntiAliasedArtwork,
        quality: Quality::High,
    };
    assert_eq!(
        conversion_summary(true, Some(art), art),
        "Auto \u{00B7} Artwork \u{00B7} High"
    );
    assert_eq!(conversion_summary(true, None, art), "Auto settings");
    assert_eq!(
        conversion_summary(false, None, art),
        "Artwork \u{00B7} High"
    );
    assert_eq!(detected_line(art), "Artwork \u{00B7} High quality");
    assert_eq!(category_name(ImageCategory::Photograph), "Photo");
    assert_eq!(colors_label(None), "All");
    assert_eq!(colors_label(Some(12)), "12");
    assert_eq!(
        curves_summary(true, "0.25", true),
        "Simplify 0.25 px \u{00B7} straightened"
    );
    assert_eq!(curves_summary(false, "0.25", false), "Exact curves");
    assert_eq!(bow_label(true, "0.20"), "Auto \u{00B7} 0.20 px");
    assert_eq!(
        curves_note(Some((90, 40)), true, true),
        "90 \u{2192} 40 nodes \u{00B7} updating\u{2026}"
    );
    assert_eq!(curves_note(Some((90, 40)), false, false), "90 nodes");
    assert_eq!(curves_note(None, true, true), "");
    assert_eq!(nodes_summary(true, Some(40), 3), "40 shown");
    assert_eq!(
        nodes_summary(false, Some(40), 3),
        "Hidden \u{00B7} 3 edited by hand"
    );
    assert!(nodes_note(0, 0, 0, 0).ends_with("Ctrl+Z undoes."));
    assert_eq!(
        nodes_note(1, 0, 0, 0),
        "1 corner rounded. Click it again to restore it."
    );
    assert_eq!(
        nodes_note(0, 0, 1, 0),
        "1 node moved. Right-click one to put it back."
    );
    assert_eq!(
        nodes_note(0, 0, 0, 2),
        "2 nodes deleted. Ctrl+Z brings the last back."
    );
    assert_eq!(
        nodes_note(2, 0, 1, 3),
        "2 rounded \u{00B7} 1 moved \u{00B7} 3 deleted by hand."
    );
    assert_eq!(nodes_note(0, 2, 0, 0), "2 squared by hand.");
    let buttons = node_buttons(1, 1, 2, 1);
    assert!(!buttons.restore_corners && buttons.undo_squaring);
    assert_eq!(buttons.put_back, Some("Put all nodes back"));
    assert_eq!(buttons.bring_back, Some("Bring the node back"));
    assert_eq!(shapes_summary(false, 2, 1), "2 deleted \u{00B7} 1 merged");
    assert_eq!(shapes_note(1, 0), "1 shape deleted.");
    assert_eq!(shapes_note(0, 2), "2 merges applied.");
    assert_eq!(
        sticker_summary(true, "4", "8", true),
        "4 + 8 px \u{00B7} shadow"
    );
    assert_eq!(
        sticker_note(true, "12", true),
        "Picture grows by 12 px on every side \u{00B7} cut the background first."
    );
    assert_eq!(
        sticker_note(false, "0", false),
        "Give the border or the rim a width."
    );
    let sliders = Sliders {
        segmentation: 11,
        smoothness: 3,
        curves: 6,
        corners: false,
    };
    assert_eq!(
        advanced_summary(false, sliders, true),
        "Preset \u{00B7} 11 \u{00B7} 3 \u{00B7} 6 \u{00B7} no corners"
    );
    assert_eq!(advanced_summary(false, sliders, false), "Preset");
    let traced = |optional_optimizer, optimizer_kept, optimizer_ran| Traced {
        preset: art,
        photo_overlap: false,
        optional_optimizer,
        optimizer_kept,
        optimizer_ran,
        advanced: None,
    };
    assert_eq!(optimizer_note(&traced(false, true, true)), None);
    assert_eq!(
        optimizer_note(&traced(true, true, true)),
        Some("Smooth joins applied.")
    );
    assert_eq!(
        optimizer_note(&traced(true, false, true)),
        Some("Smooth joins would have worsened the fit; kept the plain curves.")
    );
    assert_eq!(
        optimizer_note(&traced(true, false, false)),
        Some("Smooth joins could not run on this picture; kept the plain curves.")
    );
}

#[test]
fn colours_are_chosen_by_name() {
    let rgb = |r, g, b| Rgb { r, g, b };
    let (mut colour, mut custom) = (rgb(0, 0, 0), rgb(79, 209, 197));
    assert_eq!(shown_colour(colour), Named::Black);
    assert!(!color_choice(&mut colour, &mut custom, None, Named::Black));
    assert!(color_choice(&mut colour, &mut custom, None, Named::Custom));
    assert_eq!(colour, rgb(79, 209, 197));
    assert!(color_choice(
        &mut colour,
        &mut custom,
        Some(rgb(1, 2, 3)),
        Named::Custom
    ));
    assert_eq!((colour, custom), (rgb(1, 2, 3), rgb(1, 2, 3)));
    assert!(color_choice(&mut colour, &mut custom, None, Named::White));
    assert_eq!(colour, rgb(255, 255, 255));
    assert_eq!(choose_background(None, None, custom), None);
    assert_eq!(
        choose_background(None, Some(Named::White), custom),
        Some(rgb(255, 255, 255))
    );
    assert_eq!(
        choose_background(Some(rgb(9, 9, 9)), Some(Named::Custom), custom),
        Some(rgb(9, 9, 9))
    );
    assert_eq!(choose_background(Some(colour), None, custom), None);
    let shape = |color: &str| Island {
        color: color.to_owned(),
        rgb: None,
        covered: Vec::new(),
        edged: Vec::new(),
    };
    assert_eq!(
        merge_offer(&vec![shape("#ABC"), shape("#abc")], true),
        (false, "Select shapes of two different colors")
    );
    assert!(merge_offer(&vec![shape("#ABC"), shape("#abd")], true).0);
    assert!(!merge_offer(&vec![shape("#ABC"), shape("#abd")], false).0);
}

#[test]
fn the_footer_and_the_popups_read_well() {
    assert_eq!(status_text(StatusKind::Busy, "Saving", "1.5"), "Saving  1.5 s");
    assert_eq!(status_text(StatusKind::Done, "Saved", "1.5"), "Saved");
    assert!(nodes_tip(true).contains("hide") && nodes_tip(false).contains("show"));
    assert_eq!(
        segments_tip(true, 100, 90),
        "Simplified from the traced 100 segments and 90 nodes. Click to show the exact traced curves."
    );
    assert_eq!(size_text(120, 80, None), "120 \u{00D7} 80 px");
    assert_eq!(
        size_text(120, 80, Some((240, 160))),
        "120 \u{00D7} 80 \u{2192} 240 \u{00D7} 160 px"
    );
    assert!(size_tip(true).ends_with("Click to change."));
    assert_eq!(
        swatch_tip("#ff0000", 1),
        "1 path. Click to copy #ff0000."
    );
    assert_eq!(drop_offer(4, true).0, true);
    assert!(drop_offer(1, true).1.starts_with("The last color stays"));
    assert_eq!(
        save_tip(true, "Ctrl+S"),
        "Save as SVG, PDF or EPS, as a download  (Ctrl+S)"
    );
    assert_eq!(
        save_tip(false, "Ctrl+S"),
        "Save as SVG, PDF or EPS, or drag the file out  (Ctrl+S)"
    );
    assert_eq!(
        save_note(&StageState::Writing, false, Format::Eps),
        "Writing the EPS\u{2026}"
    );
    assert_eq!(
        save_note(&StageState::Ready(String::new()), true, Format::Svg),
        "Click to download"
    );
    let long = "x".repeat(50);
    assert_eq!(
        save_note(
            &StageState::Failed(format!("{long}\r\nmore")),
            false,
            Format::Svg
        ),
        format!("{}\u{2026}", "x".repeat(44))
    );
    assert_eq!(
        save_note(
            &StageState::Failed("short\r\nmore".to_owned()),
            false,
            Format::Svg
        ),
        "short"
    );
    assert_eq!(merge_label(3, "#abc"), "Merge 3 selected into #abc");
    assert_eq!(dropped_name(None, "/a/b.png"), "/a/b.png");
    assert_eq!(dropped_name(Some("b.png"), "/a/b.png"), "b.png");
    assert_eq!(card_detail(true, true, None), "Converting\u{2026}");
    assert_eq!(
        card_detail(false, false, Some((Some(4), true, 2))),
        "4 colors \u{00B7} flattened \u{00B7} 2 merged"
    );
    assert_eq!(card_detail(false, false, Some((None, true, 0))), "flattened");
    assert_eq!(empty_state(true, false, true), "Ready to convert");
    assert_eq!(
        welcome_text(true, false, ""),
        ("Drop an image here", "A logo, a drawing or a photo")
    );
    assert_eq!(welcome_text(false, true, "Saving"), ("Saving", ""));
    assert_eq!(drop_zone(true, false, false, true, true), Start::Sample);
    assert_eq!(drop_zone(true, false, false, false, true), Start::Browse);
    assert_eq!(drop_zone(false, false, true, true, true), Start::Nothing);
}

#[test]
fn a_picture_is_told_by_its_pixels() {
    // Flat squares of two colours are pixel art.
    let (width, height) = (200usize, 200usize);
    let mut pixels = Vec::new();
    for y in 0..height {
        for x in 0..width {
            let on = (x / 20 + y / 20) % 2 == 0;
            pixels.push(if on {
                [0, 0, 0, 255]
            } else {
                [255, 255, 255, 255]
            });
        }
    }
    let found = detect(&Raster {
        width,
        height,
        pixels,
    });
    assert_eq!(found.category, ImageCategory::AliasedArtwork);
    assert_eq!(found.quality, Quality::High);
    assert_eq!(
        found.description(),
        "Pixel art \u{00B7} High source quality"
    );
    // Noise is a photograph.
    let mut seed = 12345u32;
    let mut noise = Vec::new();
    for _ in 0..100 * 100 {
        seed = seed.wrapping_mul(1664525).wrapping_add(1013904223);
        let b = seed.to_be_bytes();
        noise.push([b[0], b[1], b[2], 255]);
    }
    let found = detect(&Raster {
        width: 100,
        height: 100,
        pixels: noise,
    });
    assert_eq!(found.category, ImageCategory::Photograph);
    assert_eq!(found.quality, Quality::Medium);
}

#[test]
fn a_portable_copy_keeps_its_settings_beside_itself() {
    let around = Surroundings {
        mac: false,
        has_file: false,
        takes_files: true,
        app_data: true,
        xdg_config: false,
        home: true,
    };
    assert_eq!(around.prefs_path(), Some(Place::Portable));
    // The file already there counts, also in a folder that takes no more.
    let full = Surroundings {
        has_file: true,
        takes_files: false,
        ..around
    };
    assert_eq!(full.prefs_path(), Some(Place::Portable));
    // A folder that cannot be written is no place for them.
    let closed = Surroundings {
        takes_files: false,
        ..around
    };
    assert_eq!(closed.prefs_path(), Some(Place::Installed(Base::AppData)));
    let unix = Surroundings {
        app_data: false,
        xdg_config: true,
        ..closed
    };
    assert_eq!(unix.prefs_path(), Some(Place::Installed(Base::XdgConfig)));
    let bare = Surroundings {
        xdg_config: false,
        ..unix
    };
    assert_eq!(bare.prefs_path(), Some(Place::Installed(Base::HomeConfig)));
    let homeless = Surroundings {
        home: false,
        ..bare
    };
    assert_eq!(homeless.prefs_path(), None);
    let mac = Surroundings {
        mac: true,
        ..around
    };
    assert_eq!(mac.prefs_path(), Some(Place::Installed(Base::Library)));
}
