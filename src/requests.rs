use vstd::prelude::*;
use vstd::string::*;
use crate::options::{TextToSpeechLanguage, joined_codes, language_list};
use crate::text::{find, occurs_at, trim, trimmed};

verus! {

/// The standard base64 alphabet, a character for each value below 64.
pub open spec fn base64_digit(v: int) -> char {
    "ABCDEFGHIJKLMNOPQRSTUVWXYZabcdefghijklmnopqrstuvwxyz0123456789+/"@[v]
}

/// The padded standard-alphabet base64 encoding of `bytes`: each three bytes become four
/// characters of six bits each; a last one or two bytes become two or three characters
/// (the last bits zero) and `=` up to four.
pub open spec fn base64_standard(bytes: Seq<u8>) -> Seq<char>
    decreases bytes.len(),
{
    if bytes.len() == 0 {
        Seq::empty()
    } else if bytes.len() == 1 {
        let b0 = bytes[0] as int;
        seq![base64_digit(b0 / 4), base64_digit((b0 % 4) * 16), '=', '=']
    } else if bytes.len() == 2 {
        let b0 = bytes[0] as int;
        let b1 = bytes[1] as int;
        seq![base64_digit(b0 / 4), base64_digit((b0 % 4) * 16 + b1 / 16), base64_digit((b1 % 16) * 4), '=']
    } else {
        let b0 = bytes[0] as int;
        let b1 = bytes[1] as int;
        let b2 = bytes[2] as int;
        seq![
            base64_digit(b0 / 4),
            base64_digit((b0 % 4) * 16 + b1 / 16),
            base64_digit((b1 % 16) * 4 + b2 / 64),
            base64_digit(b2 % 64),
        ] + base64_standard(bytes.subrange(3, bytes.len() as int))
    }
}

/// A lower-case hexadecimal digit, for each value below 16.
pub open spec fn hex_digit(v: int) -> char {
    "0123456789abcdef"@[v]
}

/// How a character stands inside a JSON string: `"` and `\` after a backslash, the
/// control characters with a short escape as `\b`, `\t`, `\n`, `\f`, `\r`, the other
/// control characters (below 0x20) as `\u00` and two hex digits, the rest as it is.
pub open spec fn json_escaped(c: char) -> Seq<char> {
    let u = c as u32;
    if c == '"' {
        seq!['\\', '"']
    } else if c == '\\' {
        seq!['\\', '\\']
    } else if u == 0x8 {
        seq!['\\', 'b']
    } else if u == 0x9 {
        seq!['\\', 't']
    } else if u == 0xa {
        seq!['\\', 'n']
    } else if u == 0xc {
        seq!['\\', 'f']
    } else if u == 0xd {
        seq!['\\', 'r']
    } else if u < 0x20 {
        seq!['\\', 'u', '0', '0', hex_digit(u as int / 16), hex_digit(u as int % 16)]
    } else {
        seq![c]
    }
}

/// Each character of `text` as it stands inside a JSON string.
pub open spec fn json_escaped_text(text: Seq<char>) -> Seq<char>
    decreases text.len(),
{
    if text.len() == 0 {
        Seq::empty()
    } else {
        json_escaped_text(text.drop_last()) + json_escaped(text.last())
    }
}

/// `text` written as a JSON string: quoted, with `json_escaped` applied to each character.
pub open spec fn json_string_literal(text: Seq<char>) -> Seq<char> {
    seq!['"'] + json_escaped_text(text) + seq!['"']
}

#[verifier::external_type_specification]
#[verifier::external_body]
pub struct ExDecodeError(base64::DecodeError);

/// Relies on `Engine::encode` of base64's `STANDARD` engine: the padded encoding in
/// the standard alphabet. It panics where the encoded length does not fit in a `usize`.
#[verifier::external_body]
fn encode_base64(bytes: &[u8]) -> (r: String)
    requires
        4 * ((bytes@.len() + 2) / 3) <= usize::MAX,
    ensures
        r@ == base64_standard(bytes@),
{
    base64::Engine::encode(&base64::engine::general_purpose::STANDARD, bytes)
}

/// Relies on `Engine::decode` of base64's `STANDARD` engine, which asks for canonical
/// padding and no trailing bits: it succeeds exactly on the padded encodings of byte
/// strings, and the bytes it returns encode back to the input.
#[verifier::external_body]
fn decode_base64(text: &str) -> (r: Result<Vec<u8>, base64::DecodeError>)
    ensures
        r matches Ok(bytes) ==> base64_standard(bytes@) == text@,
        (exists|b: Seq<u8>| base64_standard(b) == text@) ==> r is Ok,
{
    base64::Engine::decode(&base64::engine::general_purpose::STANDARD, text.as_bytes())
}

/// Relies on serde_json's `Display` of a `Value::String`: the string quoted, with the
/// escapes of its compact formatter (`json_escaped`).
#[verifier::external_body]
fn json_string(text: &str) -> (r: String)
    ensures
        r@ == json_string_literal(text@),
{
    serde_json::Value::from(text).to_string()
}

/// Audio content that is not valid padded base64.
#[derive(Debug, Clone, Copy, PartialEq, Eq)]
pub struct AudioDecodeError;

/// The body of a text detection request for one image.
pub open spec fn ocr_request_spec(image: Seq<u8>) -> Seq<char> {
    "{\"requests\":[{\"features\":[{\"type\":\"TEXT_DETECTION\"}],\"image\":{\"content\":\""@
        + base64_standard(image) + "\"}}]}"@
}

/// The body of a request to read Japanese text aloud into MP3 audio.
pub open spec fn speech_request_spec(text: Seq<char>) -> Seq<char> {
    "{\"audioConfig\":{\"audioEncoding\":\"MP3\"},\"input\":{\"markup\":"@ + json_string_literal(text)
        + "},\"voice\":{\"languageCode\":\"ja-JP\",\"name\":\"ja-JP-Chirp3-HD-Achernar\",\"voiceClone\":{}}}"@
}

/// The body of a request to translate Japanese text into English.
pub open spec fn translate_request_spec(text: Seq<char>) -> Seq<char> {
    "{\"format\":\"text\",\"q\":"@ + json_string_literal(text)
        + ",\"source\":\"ja\",\"target\":\"en\"}"@
}

/// The start of the speech markup for a language: the document and voice openings.
pub open spec fn ssml_opening(l: TextToSpeechLanguage) -> Seq<char> {
    match l {
        TextToSpeechLanguage::Japanese =>
            "<speak version='1.0' xml:lang='ja-JP'><voice xml:lang='ja-JP' xml:gender='Female' name='ja-JP-NanamiNeural'>"@,
        TextToSpeechLanguage::English =>
            "<speak version='1.0' xml:lang='en-US'><voice xml:lang='en-US' xml:gender='Female' name='en-US-AvaMultilingualNeural'>"@,
        TextToSpeechLanguage::Finnish =>
            "<speak version='1.0' xml:lang='fi-FI'><voice xml:lang='fi-FI' xml:gender='Female' name='fi-FI-SelmaNeural'>"@,
        TextToSpeechLanguage::Swedish =>
            "<speak version='1.0' xml:lang='fi-FI'><voice xml:lang='sv-SV' xml:gender='Female' name='sv-SV-SelmaNeural'>"@,
    }
}

/// The texts one after another, with no separator.
pub open spec fn concatenated(texts: Seq<String>) -> Seq<char>
    decreases texts.len(),
{
    if texts.len() == 0 {
        Seq::empty()
    } else {
        concatenated(texts.drop_last()) + texts.last()@
    }
}

/// The body of a text detection request: the image in base64, asking for text detection.
pub fn ocr_request_body(image: &Vec<u8>) -> (r: String)
    requires
        4 * ((image@.len() + 2) / 3) <= usize::MAX,
    ensures
        r@ == ocr_request_spec(image@),
{
    let mut body = String::new();
    body.append("{\"requests\":[{\"features\":[{\"type\":\"TEXT_DETECTION\"}],\"image\":{\"content\":\"");
    let encoded = encode_base64(image.as_slice());
    body.append(encoded.as_str());
    body.append("\"}}]}");
    proof {
        assert(body@ =~= ocr_request_spec(image@));
    }
    body
}

/// The body of a request to read Japanese text aloud: the text as a JSON string, with the
/// voice and the MP3 encoding.
pub fn speech_request_body(text: &str) -> (r: String)
    ensures
        r@ == speech_request_spec(text@),
{
    let mut body = String::new();
    body.append("{\"audioConfig\":{\"audioEncoding\":\"MP3\"},\"input\":{\"markup\":");
    let quoted = json_string(text);
    body.append(quoted.as_str());
    body.append("},\"voice\":{\"languageCode\":\"ja-JP\",\"name\":\"ja-JP-Chirp3-HD-Achernar\",\"voiceClone\":{}}}");
    proof {
        assert(body@ =~= speech_request_spec(text@));
    }
    body
}

/// The body of a request to translate Japanese text into English, in plain text format.
pub fn translate_request_body(text: &str) -> (r: String)
    ensures
        r@ == translate_request_spec(text@),
{
    let mut body = String::new();
    body.append("{\"format\":\"text\",\"q\":");
    let quoted = json_string(text);
    body.append(quoted.as_str());
    body.append(",\"source\":\"ja\",\"target\":\"en\"}");
    proof {
        assert(body@ =~= translate_request_spec(text@));
    }
    body
}

/// The speech markup that reads `text` aloud in a language; the text goes in as it is.
pub fn ssml_body(text: &str, language: TextToSpeechLanguage) -> (r: String)
    ensures
        r@ == ssml_opening(language) + text@ + "</voice></speak>"@,
{
    let mut body = String::new();
    match language {
        TextToSpeechLanguage::Japanese => body.append(
            "<speak version='1.0' xml:lang='ja-JP'><voice xml:lang='ja-JP' xml:gender='Female' name='ja-JP-NanamiNeural'>",
        ),
        TextToSpeechLanguage::English => body.append(
            "<speak version='1.0' xml:lang='en-US'><voice xml:lang='en-US' xml:gender='Female' name='en-US-AvaMultilingualNeural'>",
        ),
        TextToSpeechLanguage::Finnish => body.append(
            "<speak version='1.0' xml:lang='fi-FI'><voice xml:lang='fi-FI' xml:gender='Female' name='fi-FI-SelmaNeural'>",
        ),
        TextToSpeechLanguage::Swedish => body.append(
            "<speak version='1.0' xml:lang='fi-FI'><voice xml:lang='sv-SV' xml:gender='Female' name='sv-SV-SelmaNeural'>",
        ),
    }
    body.append(text);
    body.append("</voice></speak>");
    proof {
        assert(body@ =~= ssml_opening(language) + text@ + "</voice></speak>"@);
    }
    body
}

/// The body of a translator request: the text, as it is, in a one-element JSON array.
pub fn translator_request_body(text: &str) -> (r: String)
    ensures
        r@ == "[{ \"Text\": \""@ + text@ + "\" }]"@,
{
    let mut body = String::new();
    body.append("[{ \"Text\": \"");
    body.append(text);
    body.append("\" }]");
    proof {
        assert(body@ =~= "[{ \"Text\": \""@ + text@ + "\" }]"@);
    }
    body
}

/// The translator address with the target languages added: `base&to=en,fi`.
pub fn translator_url(base: &str, langs: &[TextToSpeechLanguage]) -> (r: String)
    ensures
        r@ == base@ + "&to="@ + joined_codes(langs@),
{
    let mut url = String::new();
    url.append(base);
    url.append("&to=");
    let list = language_list(langs);
    url.append(list.as_str());
    proof {
        assert(url@ =~= base@ + "&to="@ + joined_codes(langs@));
    }
    url
}

/// The text of all the detections of a response, one after another.
pub fn join_annotations(texts: &Vec<String>) -> (r: String)
    ensures
        r@ == concatenated(texts@),
{
    let mut out = String::new();
    let mut i: usize = 0;
    while i < texts.len()
        invariant
            i <= texts@.len(),
            out@ == concatenated(texts@.subrange(0, i as int)),
        decreases texts@.len() - i,
    {
        out.append(texts[i].as_str());
        proof {
            let next = texts@.subrange(0, i + 1);
            assert(next.drop_last() =~= texts@.subrange(0, i as int));
            assert(out@ =~= concatenated(next));
        }
        i = i + 1;
    }
    proof {
        assert(texts@.subrange(0, texts@.len() as int) =~= texts@);
    }
    out
}

/// The project named in a cloud configuration listing: what follows the first
/// `project = `, trimmed; `None` where the listing names none.
pub fn google_project(config: &str) -> (r: Option<String>)
    ensures
        match r {
            Some(project) => exists|i: int|
                occurs_at(config@, "project = "@, i) && (forall|j: int|
                    0 <= j < i ==> !occurs_at(config@, "project = "@, j)) && project@ == trimmed(
                    config@.subrange(i + 10, config@.len() as int),
                ),
            None => forall|j: int| !occurs_at(config@, "project = "@, j),
        },
{
    proof {
        reveal_strlit("project = ");
    }
    let n = config.unicode_len();
    match find(config, "project = ") {
        Some(i) => {
            proof {
                assert("project = "@.len() == 10);
            }
            let rest = config.substring_char(i + 10, n);
            Some(trim(rest))
        },
        None => None,
    }
}

/// The audio bytes that base64 content stands for; an error exactly where it is not the
/// padded base64 encoding of any bytes.
pub fn decode_audio(content: &str) -> (r: Result<Vec<u8>, AudioDecodeError>)
    ensures
        r matches Ok(bytes) ==> base64_standard(bytes@) == content@,
        (exists|b: Seq<u8>| base64_standard(b) == content@) <==> r is Ok,
{
    match decode_base64(content) {
        Ok(bytes) => Ok(bytes),
        Err(_) => Err(AudioDecodeError),
    }
}

} // verus!
