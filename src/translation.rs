use vstd::prelude::*;
use vstd::string::*;
use crate::options::{TextToSpeechLanguage, UsageOptions};
use crate::text::same_text;

verus! {

/// The translations of one recognised text, one per target language; empty where
/// the text was not translated into that language.
pub struct TranslationResponse {
    pub en_translation: String,
    pub fi_translation: String,
    pub sv_translation: String,
}

/// The texts, each followed by a line break.
pub open spec fn lines_joined(texts: Seq<String>) -> Seq<char>
    decreases texts.len(),
{
    if texts.len() == 0 {
        Seq::empty()
    } else {
        lines_joined(texts.drop_last()) + texts.last()@ + seq!['\n']
    }
}

/// The language code that a translation reports, `en` where it reports none.
pub open spec fn reported_code(to: Option<&str>) -> Seq<char> {
    match to {
        Some(code) => code@,
        None => seq!['e', 'n'],
    }
}

/// The translation into a language; empty for Japanese, the language of the recognised text.
pub open spec fn translation_in(r: &TranslationResponse, language: TextToSpeechLanguage) -> Seq<char> {
    match language {
        TextToSpeechLanguage::English => r.en_translation@,
        TextToSpeechLanguage::Finnish => r.fi_translation@,
        TextToSpeechLanguage::Swedish => r.sv_translation@,
        TextToSpeechLanguage::Japanese => Seq::empty(),
    }
}

/// Whether the options ask for translations into a language to be read aloud: English
/// and Finnish each have a switch; Swedish ones are never read aloud.
pub open spec fn playback_on(o: UsageOptions, language: TextToSpeechLanguage) -> bool {
    match language {
        TextToSpeechLanguage::English => o.playback_en,
        TextToSpeechLanguage::Finnish => o.playback_fi,
        _ => false,
    }
}

impl TranslationResponse {
    /// No translation in any language.
    pub fn new() -> (r: Self)
        ensures
            r.en_translation@ == Seq::<char>::empty(),
            r.fi_translation@ == Seq::<char>::empty(),
            r.sv_translation@ == Seq::<char>::empty(),
    {
        TranslationResponse {
            en_translation: String::new(),
            fi_translation: String::new(),
            sv_translation: String::new(),
        }
    }

    /// The English translation made of translated pieces, each followed by a line
    /// break; nothing in the other languages.
    pub fn from_english_pieces(pieces: &Vec<String>) -> (r: Self)
        ensures
            r.en_translation@ == lines_joined(pieces@),
            r.fi_translation@ == Seq::<char>::empty(),
            r.sv_translation@ == Seq::<char>::empty(),
    {
        let mut en = String::new();
        let mut i: usize = 0;
        while i < pieces.len()
            invariant
                i <= pieces@.len(),
                en@ == lines_joined(pieces@.subrange(0, i as int)),
            decreases pieces@.len() - i,
        {
            en.append(pieces[i].as_str());
            en.append("\n");
            proof {
                reveal_strlit("\n");
                let next = pieces@.subrange(0, i + 1);
                assert(next.drop_last() =~= pieces@.subrange(0, i as int));
                assert(en@ =~= lines_joined(next));
            }
            i = i + 1;
        }
        proof {
            assert(pieces@.subrange(0, pieces@.len() as int) =~= pieces@);
        }
        TranslationResponse {
            en_translation: en,
            fi_translation: String::new(),
            sv_translation: String::new(),
        }
    }

    /// Files one translation under the language it reports (`en` where it reports
    /// none): `fi`, `en` and `sv` replace that language's text; any other code is
    /// ignored.
    pub fn record(&mut self, to: Option<&str>, text: String)
        ensures
            final(self).fi_translation@ == if reported_code(to) == seq!['f', 'i'] {
                text@
            } else {
                old(self).fi_translation@
            },
            final(self).en_translation@ == if reported_code(to) == seq!['e', 'n'] {
                text@
            } else {
                old(self).en_translation@
            },
            final(self).sv_translation@ == if reported_code(to) == seq!['s', 'v'] {
                text@
            } else {
                old(self).sv_translation@
            },
    {
        let code = match to {
            Some(code) => code,
            None => "en",
        };
        proof {
            reveal_strlit("en");
            reveal_strlit("fi");
            reveal_strlit("sv");
            assert("en"@ =~= seq!['e', 'n']);
            assert("fi"@ =~= seq!['f', 'i']);
            assert("sv"@ =~= seq!['s', 'v']);
            assert(code@ == reported_code(to));
            assert(seq!['f', 'i'][0] != seq!['e', 'n'][0]);
            assert(seq!['f', 'i'][0] != seq!['s', 'v'][0]);
            assert(seq!['e', 'n'][0] != seq!['s', 'v'][0]);
        }
        if same_text(code, "fi") {
            self.fi_translation = text;
        } else if same_text(code, "en") {
            self.en_translation = text;
        } else if same_text(code, "sv") {
            self.sv_translation = text;
        }
    }

    /// Whether there is a translation into `language` to show: it is not empty.
    pub fn has_translation(&self, language: TextToSpeechLanguage) -> (r: bool)
        ensures
            r == (translation_in(self, language).len() > 0),
    {
        match language {
            TextToSpeechLanguage::English => self.en_translation.as_str().unicode_len() > 0,
            TextToSpeechLanguage::Finnish => self.fi_translation.as_str().unicode_len() > 0,
            TextToSpeechLanguage::Swedish => self.sv_translation.as_str().unicode_len() > 0,
            TextToSpeechLanguage::Japanese => false,
        }
    }

    /// Whether the translation into `language` is to be read aloud: it is not empty and
    /// the options switch on playback in that language.
    pub fn should_speak(&self, language: TextToSpeechLanguage, options: &UsageOptions) -> (r: bool)
        ensures
            r == (translation_in(self, language).len() > 0 && playback_on(*options, language)),
    {
        let on = match language {
            TextToSpeechLanguage::English => options.playback_en,
            TextToSpeechLanguage::Finnish => options.playback_fi,
            _ => false,
        };
        on && self.has_translation(language)
    }
}


} // verus!
