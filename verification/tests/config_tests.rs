use inboxid::config::{load_config, parse_effect, style_to_str, Browse, Config, Effect, Style};

fn all_effects() -> Vec<Effect> {
    vec![
        Effect::Simple,
        Effect::Reverse,
        Effect::Bold,
        Effect::Italic,
        Effect::Strikethrough,
        Effect::Underline,
        Effect::Blink,
    ]
}

#[test]
fn effects_are_named() {
    assert_eq!(parse_effect("simple"), Some(Effect::Simple));
    assert_eq!(parse_effect("reverse"), Some(Effect::Reverse));
    assert_eq!(parse_effect("bold"), Some(Effect::Bold));
    assert_eq!(parse_effect("italic"), Some(Effect::Italic));
    assert_eq!(parse_effect("strikethrough"), Some(Effect::Strikethrough));
    assert_eq!(parse_effect("underline"), Some(Effect::Underline));
    assert_eq!(parse_effect("blink"), Some(Effect::Blink));
    assert_eq!(parse_effect("none"), None);
    assert_eq!(parse_effect("Bold"), None);
    assert_eq!(parse_effect(""), None);
}

#[test]
fn style_names_read_back() {
    for e in all_effects() {
        assert_eq!(parse_effect(style_to_str(&Style::of_effect(e))), Some(e));
    }
}

#[test]
fn a_style_is_named_after_its_first_effect() {
    assert_eq!(style_to_str(&Style { effects: vec![], greyed: false }), "none");
    assert_eq!(style_to_str(&Style::greyed()), "none");
    assert_eq!(
        style_to_str(&Style { effects: vec![Effect::Blink, Effect::Bold], greyed: false }),
        "bold"
    );
    assert_eq!(
        style_to_str(&Style { effects: vec![Effect::Italic, Effect::Simple], greyed: true }),
        "simple"
    );
}

#[test]
fn missing_settings_give_the_ones_to_start_with() {
    let c = load_config(None, "/home/u/Downloads".to_string());
    assert!(!c.browse.show_email_addresses);
    assert_eq!(style_to_str(&c.browse.unread_style), "reverse");
    assert_eq!(style_to_str(&c.browse.deleted_style), "strikethrough");
    assert_eq!(c.browse.trashed_style, Style { effects: vec![], greyed: true });
    assert_eq!(c.browse.base_save_path, "/home/u/Downloads");
}

#[test]
fn settings_that_were_read_are_kept() {
    let mut b = Browse::new("/tmp".to_string());
    b.show_email_addresses = true;
    b.unread_style = Style::of_effect(Effect::Bold);
    let read = Config { browse: b };
    assert_eq!(load_config(Some(read.clone()), "/other".to_string()), read);
}
