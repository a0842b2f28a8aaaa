use vstd::prelude::*;
use crate::text::contains_char;

verus! {

/// A language that text is read aloud in or translated into.
#[derive(Clone, Copy, Debug, PartialEq, Eq, Structural)]
pub enum TextToSpeechLanguage {
    Japanese,
    English,
    Finnish,
    Swedish,
}

/// The two-letter code of a language.
pub open spec fn language_code(l: TextToSpeechLanguage) -> Seq<char> {
    match l {
        TextToSpeechLanguage::Japanese => seq!['j', 'a'],
        TextToSpeechLanguage::English => seq!['e', 'n'],
        TextToSpeechLanguage::Finnish => seq!['f', 'i'],
        TextToSpeechLanguage::Swedish => seq!['s', 'v'],
    }
}

/// The codes of the languages, in order, separated by commas.
pub open spec fn joined_codes(langs: Seq<TextToSpeechLanguage>) -> Seq<char>
    decreases langs.len(),
{
    if langs.len() == 0 {
        Seq::empty()
    } else if langs.len() == 1 {
        language_code(langs[0])
    } else {
        joined_codes(langs.drop_last()) + seq![','] + language_code(langs.last())
    }
}

impl TextToSpeechLanguage {
    /// The two-letter code: `ja`, `en`, `fi` or `sv`.
    pub fn code(&self) -> (r: String)
        ensures
            r@ == language_code(*self),
    {
        match self {
            TextToSpeechLanguage::Japanese => {
                proof {
                    reveal_strlit("ja");
                }
                "ja".to_owned()
            },
            TextToSpeechLanguage::English => {
                proof {
                    reveal_strlit("en");
                }
                "en".to_owned()
            },
            TextToSpeechLanguage::Finnish => {
                proof {
                    reveal_strlit("fi");
                }
                "fi".to_owned()
            },
            TextToSpeechLanguage::Swedish => {
                proof {
                    reveal_strlit("sv");
                }
                "sv".to_owned()
            },
        }
    }
}

/// The codes of the languages, separated by commas (`en,fi`).
pub fn language_list(langs: &[TextToSpeechLanguage]) -> (r: String)
    ensures
        r@ == joined_codes(langs@),
{
    let mut out = String::new();
    let mut i: usize = 0;
    while i < langs.len()
        invariant
            i <= langs@.len(),
            out@ == joined_codes(langs@.subrange(0, i as int)),
        decreases langs@.len() - i,
    {
        let ghost next = langs@.subrange(0, i + 1);
        proof {
            assert(next.drop_last() =~= langs@.subrange(0, i as int));
            assert(next.last() == langs@[i as int]);
        }
        if i > 0 {
            out.append(",");
            proof {
                reveal_strlit(",");
            }
        }
        let code = langs[i].code();
        out.append(code.as_str());
        proof {
            if i == 0 {
                assert(langs@.subrange(0, 0) =~= Seq::<TextToSpeechLanguage>::empty());
                assert(out@ =~= joined_codes(next));
            } else {
                assert(out@ =~= joined_codes(next));
            }
        }
        i = i + 1;
    }
    proof {
        assert(langs@.subrange(0, langs@.len() as int) =~= langs@);
    }
    out
}

/// What the user has switched on: which translations are read aloud, whether text
/// is translated and into which language, and how the image is taken.
#[derive(Clone, Copy, Debug, PartialEq, Eq, Structural)]
pub struct UsageOptions {
    pub playback_en: bool,
    pub playback_fi: bool,
    pub use_translation: bool,
    pub translate_en: bool,
    pub translate_fi: bool,
    pub translate_sv: bool,
    pub half_screen: bool,
    pub debug_printing: bool,
    pub color_correction: bool,
}

/// The translation targets (English, Finnish, Swedish) after a command: `S` picks
/// Swedish alone, else `F` Finnish alone, else `E` English alone; a command with none
/// of them keeps the targets as they were.
pub open spec fn targets_after(o: UsageOptions, command: Seq<char>) -> (bool, bool, bool) {
    if command.contains('S') {
        (false, false, true)
    } else if command.contains('F') {
        (false, true, false)
    } else if command.contains('E') {
        (true, false, false)
    } else {
        (o.translate_en, o.translate_fi, o.translate_sv)
    }
}

/// The languages to translate into: none while translation is off, else those whose
/// target is on, in the order English, Finnish, Swedish.
pub open spec fn target_languages_spec(o: UsageOptions) -> Seq<TextToSpeechLanguage> {
    if !o.use_translation {
        Seq::empty()
    } else {
        (if o.translate_en {
            seq![TextToSpeechLanguage::English]
        } else {
            Seq::empty()
        }) + (if o.translate_fi {
            seq![TextToSpeechLanguage::Finnish]
        } else {
            Seq::empty()
        }) + (if o.translate_sv {
            seq![TextToSpeechLanguage::Swedish]
        } else {
            Seq::empty()
        })
    }
}

impl UsageOptions {
    /// The options at start: translation into Swedish, from the lower half of the
    /// image, with only the recognised text read aloud.
    pub fn new() -> (r: Self)
        ensures
            !r.playback_en && !r.playback_fi,
            r.use_translation,
            !r.translate_en && !r.translate_fi && r.translate_sv,
            r.half_screen,
            !r.debug_printing && !r.color_correction,
    {
        UsageOptions {
            playback_en: false,
            playback_fi: false,
            use_translation: true,
            translate_en: false,
            translate_fi: false,
            translate_sv: true,
            half_screen: true,
            debug_printing: false,
            color_correction: false,
        }
    }

    /// Applies a command line: each of `f`, `e`, `t`, `h`, `d`, `c` that it holds flips
    /// Finnish playback, English playback, translation, half screen, debug printing and
    /// colour correction; `E`, `F` or `S` picks the one translation target (`S` over
    /// `F` over `E`).
    pub fn apply_command(&mut self, command: &str)
        ensures
            final(self).playback_fi == (old(self).playback_fi != command@.contains('f')),
            final(self).playback_en == (old(self).playback_en != command@.contains('e')),
            final(self).use_translation == (old(self).use_translation != command@.contains('t')),
            final(self).half_screen == (old(self).half_screen != command@.contains('h')),
            final(self).debug_printing == (old(self).debug_printing != command@.contains('d')),
            final(self).color_correction == (old(self).color_correction != command@.contains('c')),
            (final(self).translate_en, final(self).translate_fi, final(self).translate_sv)
                == targets_after(*old(self), command@),
    {
        let f = contains_char(command, 'f');
        let e = contains_char(command, 'e');
        let t = contains_char(command, 't');
        let h = contains_char(command, 'h');
        let d = contains_char(command, 'd');
        let c = contains_char(command, 'c');
        let (translate_en, translate_fi, translate_sv) = if contains_char(command, 'S') {
            (false, false, true)
        } else if contains_char(command, 'F') {
            (false, true, false)
        } else if contains_char(command, 'E') {
            (true, false, false)
        } else {
            (self.translate_en, self.translate_fi, self.translate_sv)
        };
        *self = UsageOptions {
            playback_en: self.playback_en != e,
            playback_fi: self.playback_fi != f,
            use_translation: self.use_translation != t,
            translate_en,
            translate_fi,
            translate_sv,
            half_screen: self.half_screen != h,
            debug_printing: self.debug_printing != d,
            color_correction: self.color_correction != c,
        };
    }

    /// The languages to translate into (see `target_languages_spec`).
    pub fn target_languages(&self) -> (r: Vec<TextToSpeechLanguage>)
        ensures
            r@ == target_languages_spec(*self),
    {
        let mut langs: Vec<TextToSpeechLanguage> = Vec::new();
        if self.use_translation {
            if self.translate_en {
                langs.push(TextToSpeechLanguage::English);
            }
            if self.translate_fi {
                langs.push(TextToSpeechLanguage::Finnish);
            }
            if self.translate_sv {
                langs.push(TextToSpeechLanguage::Swedish);
            }
        }
        assert(langs@ =~= target_languages_spec(*self));
        langs
    }
}

/// Whether a command line asks to quit: it holds a `q`.
pub fn is_quit_command(command: &str) -> (r: bool)
    ensures
        r == command@.contains('q'),
{
    contains_char(command, 'q')
}

/// Whether there is any language to translate into.
pub fn needs_translation(langs: &[TextToSpeechLanguage]) -> (r: bool)
    ensures
        r == (langs@.len() > 0),
{
    langs.len() > 0
}

} // verus!
