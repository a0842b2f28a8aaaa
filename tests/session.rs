use ocr_reader::options::TextToSpeechLanguage::{English, Finnish, Swedish};
use ocr_reader::options::{is_quit_command, language_list, needs_translation, TextToSpeechLanguage, UsageOptions};
use ocr_reader::requests::{
    decode_audio, google_project, join_annotations, ocr_request_body, speech_request_body,
    ssml_body, translate_request_body, translator_request_body, translator_url, AudioDecodeError,
};
use ocr_reader::text::{contains_char, find, same_text};
use ocr_reader::translation::TranslationResponse;

#[test]
fn language_codes() {
    assert_eq!(TextToSpeechLanguage::Japanese.code(), "ja");
    assert_eq!(TextToSpeechLanguage::English.code(), "en");
    assert_eq!(TextToSpeechLanguage::Finnish.code(), "fi");
    assert_eq!(TextToSpeechLanguage::Swedish.code(), "sv");
}

#[test]
fn language_list_joins_with_commas() {
    assert_eq!(language_list(&[]), "");
    assert_eq!(language_list(&[Finnish]), "fi");
    assert_eq!(language_list(&[English, Finnish, Swedish]), "en,fi,sv");
}

#[test]
fn options_at_start() {
    let o = UsageOptions::new();
    assert!(o.use_translation && o.translate_sv && o.half_screen);
    assert!(!o.translate_en && !o.translate_fi && !o.playback_en && !o.playback_fi);
    assert!(!o.debug_printing && !o.color_correction);
    assert_eq!(o.target_languages(), vec![TextToSpeechLanguage::Swedish]);
}

#[test]
fn command_toggles_flags() {
    let mut o = UsageOptions::new();
    o.apply_command("fehdc");
    assert!(o.playback_fi && o.playback_en && !o.half_screen && o.debug_printing && o.color_correction);
    assert!(o.use_translation);
    o.apply_command("ft");
    assert!(!o.playback_fi && !o.use_translation && o.playback_en);
    assert_eq!(o.target_languages(), vec![]);
    o.apply_command("");
    assert!(!o.playback_fi && !o.use_translation);
}

#[test]
fn command_picks_translation_target() {
    let mut o = UsageOptions::new();
    o.apply_command("E");
    assert_eq!(o.target_languages(), vec![TextToSpeechLanguage::English]);
    o.apply_command("F");
    assert_eq!(o.target_languages(), vec![TextToSpeechLanguage::Finnish]);
    o.apply_command("EF");
    assert_eq!(o.target_languages(), vec![TextToSpeechLanguage::Finnish]);
    o.apply_command("SE");
    assert_eq!(o.target_languages(), vec![TextToSpeechLanguage::Swedish]);
}

#[test]
fn all_targets_in_fixed_order() {
    let mut o = UsageOptions::new();
    o.translate_en = true;
    o.translate_fi = true;
    assert_eq!(o.target_languages(), vec![English, Finnish, Swedish]);
}

#[test]
fn quit_command() {
    assert!(is_quit_command("q"));
    assert!(is_quit_command("abq\n"));
    assert!(!is_quit_command("Q"));
    assert!(!is_quit_command(""));
}

#[test]
fn char_and_text_search() {
    assert!(contains_char("abc", 'c'));
    assert!(!contains_char("", 'c'));
    assert!(same_text("fi", "fi"));
    assert!(!same_text("fi", "f"));
    assert_eq!(find("a project = x", "project = "), Some(2));
    assert_eq!(find("ab", "abc"), None);
    assert_eq!(find("aab", "ab"), Some(1));
    assert_eq!(find("", ""), Some(0));
}

#[test]
fn translation_record_by_code() {
    let mut t = TranslationResponse::new();
    t.record(Some("fi"), "moi".to_string());
    t.record(None, "hi".to_string());
    t.record(Some("de"), "hallo".to_string());
    t.record(Some("sv"), "hej".to_string());
    assert_eq!(t.fi_translation, "moi");
    assert_eq!(t.en_translation, "hi");
    assert_eq!(t.sv_translation, "hej");
    t.record(Some("en"), "hello".to_string());
    assert_eq!(t.en_translation, "hello");
}

#[test]
fn translation_from_english_pieces() {
    let t = TranslationResponse::from_english_pieces(&vec!["a".to_string(), "b".to_string()]);
    assert_eq!(t.en_translation, "a\nb\n");
    assert_eq!(t.fi_translation, "");
    assert_eq!(t.sv_translation, "");
    assert_eq!(TranslationResponse::from_english_pieces(&vec![]).en_translation, "");
}

#[test]
fn ocr_body_encodes_image() {
    assert_eq!(
        ocr_request_body(&vec![1, 2, 3, 255]),
        "{\"requests\":[{\"features\":[{\"type\":\"TEXT_DETECTION\"}],\"image\":{\"content\":\"AQID/w==\"}}]}"
    );
}

#[test]
fn speech_body_quotes_text() {
    assert_eq!(
        speech_request_body("a\"b"),
        "{\"audioConfig\":{\"audioEncoding\":\"MP3\"},\"input\":{\"markup\":\"a\\\"b\"},\"voice\":{\"languageCode\":\"ja-JP\",\"name\":\"ja-JP-Chirp3-HD-Achernar\",\"voiceClone\":{}}}"
    );
}

#[test]
fn translate_body_quotes_text() {
    assert_eq!(
        translate_request_body("x\ny"),
        "{\"format\":\"text\",\"q\":\"x\\ny\",\"source\":\"ja\",\"target\":\"en\"}"
    );
}

#[test]
fn ssml_per_language() {
    assert_eq!(
        ssml_body("hei", TextToSpeechLanguage::Finnish),
        "<speak version='1.0' xml:lang='fi-FI'><voice xml:lang='fi-FI' xml:gender='Female' name='fi-FI-SelmaNeural'>hei</voice></speak>"
    );
    assert!(ssml_body("x", TextToSpeechLanguage::Swedish).contains("sv-SV-SelmaNeural"));
    assert!(ssml_body("x", TextToSpeechLanguage::English).contains("en-US-AvaMultilingualNeural"));
    assert!(ssml_body("x", TextToSpeechLanguage::Japanese).contains("ja-JP-NanamiNeural"));
}

#[test]
fn translator_body_and_url() {
    assert_eq!(translator_request_body("abc"), "[{ \"Text\": \"abc\" }]");
    assert_eq!(translator_url("https://t/?v=3", &[English, Swedish]), "https://t/?v=3&to=en,sv");
}

#[test]
fn annotations_joined() {
    assert_eq!(join_annotations(&vec!["ab".to_string(), "".to_string(), "c".to_string()]), "abc");
    assert_eq!(join_annotations(&vec![]), "");
}

#[test]
fn project_from_config() {
    let config = "[core]\naccount = me\nproject = my-proj \n";
    assert_eq!(google_project(config), Some("my-proj".to_string()));
    assert_eq!(google_project("account = me"), None);
}

#[test]
fn audio_decoding() {
    assert_eq!(decode_audio("aGVsbG8="), Ok(b"hello".to_vec()));
    assert_eq!(decode_audio(""), Ok(vec![]));
    assert_eq!(decode_audio("aGVsbG8"), Err(AudioDecodeError));
    assert_eq!(decode_audio("!!!!"), Err(AudioDecodeError));
}

#[test]
fn audio_decoding_takes_every_canonical_encoding() {
    assert_eq!(decode_audio("QQ=="), Ok(vec![65]));
    assert_eq!(decode_audio("QUI="), Ok(vec![65, 66]));
    assert_eq!(decode_audio("QUJD"), Ok(vec![65, 66, 67]));
    assert_eq!(decode_audio("/w=="), Ok(vec![255]));
    assert_eq!(decode_audio("QR=="), Err(AudioDecodeError));
    assert_eq!(decode_audio("QQ"), Err(AudioDecodeError));
}

#[test]
fn ocr_body_encodes_every_remainder() {
    let prefix = "{\"requests\":[{\"features\":[{\"type\":\"TEXT_DETECTION\"}],\"image\":{\"content\":\"";
    let suffix = "\"}}]}";
    for (bytes, encoded) in [
        (vec![], ""),
        (vec![77], "TQ=="),
        (vec![77, 97], "TWE="),
        (vec![77, 97, 110], "TWFu"),
        (vec![0, 16, 131, 16, 81, 135, 32, 146, 139, 48, 211, 143], "ABCDEFGHIJKLMNOP"),
        (vec![251, 255], "+/8="),
    ] {
        assert_eq!(ocr_request_body(&bytes), format!("{}{}{}", prefix, encoded, suffix));
    }
}

#[test]
fn json_escapes_controls_quote_and_backslash() {
    let body = translate_request_body("a\\b\u{1}\u{1f}\u{8}\u{c}\r\t/é");
    assert_eq!(
        body,
        "{\"format\":\"text\",\"q\":\"a\\\\b\\u0001\\u001f\\b\\f\\r\\t/é\",\"source\":\"ja\",\"target\":\"en\"}"
    );
}

#[test]
fn which_translations_are_shown_and_spoken() {
    let mut t = TranslationResponse::new();
    t.record(Some("en"), "hello".to_string());
    t.record(Some("sv"), "hej".to_string());
    let mut o = UsageOptions::new();
    assert!(t.has_translation(English) && !t.has_translation(Finnish) && t.has_translation(Swedish));
    assert!(!t.has_translation(TextToSpeechLanguage::Japanese));
    assert!(!t.should_speak(English, &o));
    o.apply_command("ef");
    assert!(t.should_speak(English, &o));
    assert!(!t.should_speak(Finnish, &o));
    assert!(!t.should_speak(Swedish, &o));
}

#[test]
fn translation_needed_only_with_targets() {
    assert!(!needs_translation(&[]));
    assert!(needs_translation(&[Swedish]));
}
