//! The settings of the browser: how messages are styled, and where parts are
//! saved.

use vstd::prelude::*;
use crate::text::str_eq;

verus! {

/// A text effect of the terminal.
#[derive(Debug, Clone, Copy, PartialEq, Eq, Structural, Hash)]
pub enum Effect {
    Simple,
    Reverse,
    Bold,
    Italic,
    Strikethrough,
    Underline,
    Blink,
}

/// How a line is styled: the effects that are switched on, and whether its
/// text is greyed.
#[derive(Debug, Clone, PartialEq, Eq)]
pub struct Style {
    pub effects: Vec<Effect>,
    pub greyed: bool,
}

/// The settings of the browser.
#[derive(Debug, Clone, PartialEq, Eq)]
pub struct Browse {
    pub show_email_addresses: bool,
    pub unread_style: Style,
    pub trashed_style: Style,
    pub deleted_style: Style,
    pub base_save_path: String,
}

/// All settings.
#[derive(Debug, Clone, PartialEq, Eq)]
pub struct Config {
    pub browse: Browse,
}

/// The rank of an effect: effects are named in this order.
pub open spec fn rank(e: Effect) -> int {
    match e {
        Effect::Simple => 0,
        Effect::Reverse => 1,
        Effect::Bold => 2,
        Effect::Italic => 3,
        Effect::Strikethrough => 4,
        Effect::Underline => 5,
        Effect::Blink => 6,
    }
}

/// The name of an effect in the settings file.
pub open spec fn effect_name(e: Effect) -> Seq<char> {
    match e {
        Effect::Simple => "simple"@,
        Effect::Reverse => "reverse"@,
        Effect::Bold => "bold"@,
        Effect::Italic => "italic"@,
        Effect::Strikethrough => "strikethrough"@,
        Effect::Underline => "underline"@,
        Effect::Blink => "blink"@,
    }
}

/// The effect that `name` names.
pub open spec fn effect_of(name: Seq<char>) -> Option<Effect> {
    if name == "simple"@ {
        Some(Effect::Simple)
    } else if name == "reverse"@ {
        Some(Effect::Reverse)
    } else if name == "bold"@ {
        Some(Effect::Bold)
    } else if name == "italic"@ {
        Some(Effect::Italic)
    } else if name == "strikethrough"@ {
        Some(Effect::Strikethrough)
    } else if name == "underline"@ {
        Some(Effect::Underline)
    } else if name == "blink"@ {
        Some(Effect::Blink)
    } else {
        None
    }
}

/// Whether `e` is the effect of least rank among `effects`.
pub open spec fn is_first_effect(effects: Seq<Effect>, e: Effect) -> bool {
    effects.contains(e) && forall|k: int| 0 <= k < effects.len() ==> rank(e) <= rank(
        #[trigger] effects[k],
    )
}

/// The name of a style in the settings file: that of its first effect, or
/// `none` for a style without effects.
pub open spec fn style_name(effects: Seq<Effect>) -> Seq<char> {
    if effects.len() == 0 {
        "none"@
    } else {
        effect_name(choose|e: Effect| is_first_effect(effects, e))
    }
}

fn rank_of(e: Effect) -> (r: u8)
    ensures
        r == rank(e),
{
    match e {
        Effect::Simple => 0,
        Effect::Reverse => 1,
        Effect::Bold => 2,
        Effect::Italic => 3,
        Effect::Strikethrough => 4,
        Effect::Underline => 5,
        Effect::Blink => 6,
    }
}

fn name_of(e: Effect) -> (r: &'static str)
    ensures
        r@ == effect_name(e),
{
    match e {
        Effect::Simple => "simple",
        Effect::Reverse => "reverse",
        Effect::Bold => "bold",
        Effect::Italic => "italic",
        Effect::Strikethrough => "strikethrough",
        Effect::Underline => "underline",
        Effect::Blink => "blink",
    }
}

/// The name of a style in the settings file.
pub fn style_to_str(x: &Style) -> (r: &'static str)
    ensures
        r@ == style_name(x.effects@),
{
    let n = x.effects.len();
    if n == 0 {
        return "none";
    }
    let mut best = x.effects[0];
    for i in 1..n
        invariant
            n == x.effects@.len(),
            n > 0,
            x.effects@.contains(best),
            forall|k: int| 0 <= k < i ==> rank(best) <= rank(#[trigger] x.effects@[k]),
    {
        if rank_of(x.effects[i]) < rank_of(best) {
            best = x.effects[i];
        }
    }
    proof {
        assert(is_first_effect(x.effects@, best));
        let e = choose|e: Effect| is_first_effect(x.effects@, e);
        let k = choose|k: int| 0 <= k < x.effects@.len() && x.effects@[k] == e;
        let j = choose|j: int| 0 <= j < x.effects@.len() && x.effects@[j] == best;
        assert(rank(e) <= rank(x.effects@[j]));
        assert(rank(best) <= rank(x.effects@[k]));
        assert(e == best);
    }
    name_of(best)
}

/// The effect that `effect` names.
pub fn parse_effect(effect: &str) -> (r: Option<Effect>)
    ensures
        r == effect_of(effect@),
{
    if str_eq(effect, "simple") {
        Some(Effect::Simple)
    } else if str_eq(effect, "reverse") {
        Some(Effect::Reverse)
    } else if str_eq(effect, "bold") {
        Some(Effect::Bold)
    } else if str_eq(effect, "italic") {
        Some(Effect::Italic)
    } else if str_eq(effect, "strikethrough") {
        Some(Effect::Strikethrough)
    } else if str_eq(effect, "underline") {
        Some(Effect::Underline)
    } else if str_eq(effect, "blink") {
        Some(Effect::Blink)
    } else {
        None
    }
}

/// The name of an effect names that effect.
pub proof fn lemma_effect_name_round_trip(e: Effect)
    ensures
        effect_of(effect_name(e)) == Some(e),
{
    reveal_strlit("simple");
    reveal_strlit("reverse");
    reveal_strlit("bold");
    reveal_strlit("italic");
    reveal_strlit("strikethrough");
    reveal_strlit("underline");
    reveal_strlit("blink");
    assert("simple"@.len() == 6 && "simple"@[0] == 's');
    assert("reverse"@.len() == 7);
    assert("bold"@.len() == 4);
    assert("italic"@.len() == 6 && "italic"@[0] == 'i');
    assert("strikethrough"@.len() == 13);
    assert("underline"@.len() == 9);
    assert("blink"@.len() == 5);
}

impl Style {
    /// The style that switches one effect on.
    pub fn of_effect(e: Effect) -> (s: Self)
        ensures
            s.effects@ == seq![e],
            !s.greyed,
    {
        let mut effects: Vec<Effect> = Vec::new();
        effects.push(e);
        Style { effects, greyed: false }
    }

    /// The style that greys the text.
    pub fn greyed() -> (s: Self)
        ensures
            s.effects@.len() == 0,
            s.greyed,
    {
        Style { effects: Vec::new(), greyed: true }
    }
}

impl Browse {
    /// Whether these are the settings to start with: addresses are not
    /// shown, unread messages are reversed, trashed ones greyed, deleted ones
    /// struck through, and parts are saved under `base_save_path`.
    pub open spec fn is_initial(&self, base_save_path: String) -> bool {
        &&& !self.show_email_addresses
        &&& self.unread_style.effects@ == seq![Effect::Reverse]
        &&& !self.unread_style.greyed
        &&& self.trashed_style.effects@.len() == 0
        &&& self.trashed_style.greyed
        &&& self.deleted_style.effects@ == seq![Effect::Strikethrough]
        &&& !self.deleted_style.greyed
        &&& self.base_save_path == base_save_path
    }

    /// The settings to start with.
    pub fn new(base_save_path: String) -> (b: Self)
        ensures
            b.is_initial(base_save_path),
    {
        Browse {
            show_email_addresses: false,
            unread_style: Style::of_effect(Effect::Reverse),
            trashed_style: Style::greyed(),
            deleted_style: Style::of_effect(Effect::Strikethrough),
            base_save_path,
        }
    }
}

/// The settings to go by: those that were read, or the ones to start with
/// where there is no settings file.
pub fn load_config(loaded: Option<Config>, base_save_path: String) -> (c: Config)
    ensures
        match loaded {
            Some(l) => c == l,
            None => c.browse.is_initial(base_save_path),
        },
{
    match loaded {
        Some(l) => l,
        None => Config { browse: Browse::new(base_save_path) },
    }
}

} // verus!
