//! The special tokens that follow the vocabulary, and the language list.

use vstd::prelude::*;
use vstd::string::*;

verus! {

/// Number of languages the model knows.
pub const N_LANGUAGES: usize = 99;

/// Number of timestamp tokens: one for every 0.02 s from 0.00 to 30.00.
pub const N_TIMESTAMPS: usize = 1501;

/// Number of special tokens: end of text, start of transcript, the language
/// tags, six task markers and the timestamps.
pub const N_SPECIALS: usize = 1608;

/// Position of the first language tag among the special tokens.
pub const FIRST_LANGUAGE: usize = 2;

/// Position of the first task marker among the special tokens.
pub const FIRST_MARKER: usize = 101;

/// Position of the first timestamp among the special tokens.
pub const FIRST_TIMESTAMP: usize = 107;

/// The code of the language at `index` of the language list.
pub open spec fn language_code_at(index: int) -> Seq<char> {
    if index == 0 {
        "en"@
    } else if index == 1 {
        "zh"@
    } else if index == 2 {
        "de"@
    } else if index == 3 {
        "es"@
    } else if index == 4 {
        "ru"@
    } else if index == 5 {
        "ko"@
    } else if index == 6 {
        "fr"@
    } else if index == 7 {
        "ja"@
    } else if index == 8 {
        "pt"@
    } else if index == 9 {
        "tr"@
    } else if index == 10 {
        "pl"@
    } else if index == 11 {
        "ca"@
    } else if index == 12 {
        "nl"@
    } else if index == 13 {
        "ar"@
    } else if index == 14 {
        "sv"@
    } else if index == 15 {
        "it"@
    } else if index == 16 {
        "id"@
    } else if index == 17 {
        "hi"@
    } else if index == 18 {
        "fi"@
    } else if index == 19 {
        "vi"@
    } else if index == 20 {
        "iw"@
    } else if index == 21 {
        "uk"@
    } else if index == 22 {
        "el"@
    } else if index == 23 {
        "ms"@
    } else if index == 24 {
        "cs"@
    } else if index == 25 {
        "ro"@
    } else if index == 26 {
        "da"@
    } else if index == 27 {
        "hu"@
    } else if index == 28 {
        "ta"@
    } else if index == 29 {
        "no"@
    } else if index == 30 {
        "th"@
    } else if index == 31 {
        "ur"@
    } else if index == 32 {
        "hr"@
    } else if index == 33 {
        "bg"@
    } else if index == 34 {
        "lt"@
    } else if index == 35 {
        "la"@
    } else if index == 36 {
        "mi"@
    } else if index == 37 {
        "ml"@
    } else if index == 38 {
        "cy"@
    } else if index == 39 {
        "sk"@
    } else if index == 40 {
        "te"@
    } else if index == 41 {
        "fa"@
    } else if index == 42 {
        "lv"@
    } else if index == 43 {
        "bn"@
    } else if index == 44 {
        "sr"@
    } else if index == 45 {
        "az"@
    } else if index == 46 {
        "sl"@
    } else if index == 47 {
        "kn"@
    } else if index == 48 {
        "et"@
    } else if index == 49 {
        "mk"@
    } else if index == 50 {
        "br"@
    } else if index == 51 {
        "eu"@
    } else if index == 52 {
        "is"@
    } else if index == 53 {
        "hy"@
    } else if index == 54 {
        "ne"@
    } else if index == 55 {
        "mn"@
    } else if index == 56 {
        "bs"@
    } else if index == 57 {
        "kk"@
    } else if index == 58 {
        "sq"@
    } else if index == 59 {
        "sw"@
    } else if index == 60 {
        "gl"@
    } else if index == 61 {
        "mr"@
    } else if index == 62 {
        "pa"@
    } else if index == 63 {
        "si"@
    } else if index == 64 {
        "km"@
    } else if index == 65 {
        "sn"@
    } else if index == 66 {
        "yo"@
    } else if index == 67 {
        "so"@
    } else if index == 68 {
        "af"@
    } else if index == 69 {
        "oc"@
    } else if index == 70 {
        "ka"@
    } else if index == 71 {
        "be"@
    } else if index == 72 {
        "tg"@
    } else if index == 73 {
        "sd"@
    } else if index == 74 {
        "gu"@
    } else if index == 75 {
        "am"@
    } else if index == 76 {
        "yi"@
    } else if index == 77 {
        "lo"@
    } else if index == 78 {
        "uz"@
    } else if index == 79 {
        "fo"@
    } else if index == 80 {
        "ht"@
    } else if index == 81 {
        "ps"@
    } else if index == 82 {
        "tk"@
    } else if index == 83 {
        "nn"@
    } else if index == 84 {
        "mt"@
    } else if index == 85 {
        "sa"@
    } else if index == 86 {
        "lb"@
    } else if index == 87 {
        "my"@
    } else if index == 88 {
        "bo"@
    } else if index == 89 {
        "tl"@
    } else if index == 90 {
        "mg"@
    } else if index == 91 {
        "as"@
    } else if index == 92 {
        "tt"@
    } else if index == 93 {
        "haw"@
    } else if index == 94 {
        "ln"@
    } else if index == 95 {
        "ha"@
    } else if index == 96 {
        "ba"@
    } else if index == 97 {
        "jw"@
    } else {
        "su"@
    }
}

/// The code of the language at `index` of the language list.
pub fn language_code(index: usize) -> (code: &'static str)
    requires
        index < N_LANGUAGES,
    ensures
        code@ == language_code_at(index as int),
{
    match index {
        0 => "en",
        1 => "zh",
        2 => "de",
        3 => "es",
        4 => "ru",
        5 => "ko",
        6 => "fr",
        7 => "ja",
        8 => "pt",
        9 => "tr",
        10 => "pl",
        11 => "ca",
        12 => "nl",
        13 => "ar",
        14 => "sv",
        15 => "it",
        16 => "id",
        17 => "hi",
        18 => "fi",
        19 => "vi",
        20 => "iw",
        21 => "uk",
        22 => "el",
        23 => "ms",
        24 => "cs",
        25 => "ro",
        26 => "da",
        27 => "hu",
        28 => "ta",
        29 => "no",
        30 => "th",
        31 => "ur",
        32 => "hr",
        33 => "bg",
        34 => "lt",
        35 => "la",
        36 => "mi",
        37 => "ml",
        38 => "cy",
        39 => "sk",
        40 => "te",
        41 => "fa",
        42 => "lv",
        43 => "bn",
        44 => "sr",
        45 => "az",
        46 => "sl",
        47 => "kn",
        48 => "et",
        49 => "mk",
        50 => "br",
        51 => "eu",
        52 => "is",
        53 => "hy",
        54 => "ne",
        55 => "mn",
        56 => "bs",
        57 => "kk",
        58 => "sq",
        59 => "sw",
        60 => "gl",
        61 => "mr",
        62 => "pa",
        63 => "si",
        64 => "km",
        65 => "sn",
        66 => "yo",
        67 => "so",
        68 => "af",
        69 => "oc",
        70 => "ka",
        71 => "be",
        72 => "tg",
        73 => "sd",
        74 => "gu",
        75 => "am",
        76 => "yi",
        77 => "lo",
        78 => "uz",
        79 => "fo",
        80 => "ht",
        81 => "ps",
        82 => "tk",
        83 => "nn",
        84 => "mt",
        85 => "sa",
        86 => "lb",
        87 => "my",
        88 => "bo",
        89 => "tl",
        90 => "mg",
        91 => "as",
        92 => "tt",
        93 => "haw",
        94 => "ln",
        95 => "ha",
        96 => "ba",
        97 => "jw",
        _ => "su",
    }
}

/// A number that tells the language codes apart: it is made of a code's
/// length and its first two letters.
pub open spec fn code_number(code: Seq<char>) -> int {
    code.len() * 0x1_0000 + (code[0] as int) * 0x100 + (code[1] as int)
}

/// The number of the code at `index` of the language list.
pub open spec fn code_number_at(index: int) -> int {
    code_number(language_code_at(index))
}

/// Every language code has two or three letters.
pub proof fn lemma_language_code_len(index: int)
    ensures
        2 <= language_code_at(index).len() <= 3,
{
    reveal_strlit("en");
    reveal_strlit("zh");
    reveal_strlit("de");
    reveal_strlit("es");
    reveal_strlit("ru");
    reveal_strlit("ko");
    reveal_strlit("fr");
    reveal_strlit("ja");
    reveal_strlit("pt");
    reveal_strlit("tr");
    reveal_strlit("pl");
    reveal_strlit("ca");
    reveal_strlit("nl");
    reveal_strlit("ar");
    reveal_strlit("sv");
    reveal_strlit("it");
    reveal_strlit("id");
    reveal_strlit("hi");
    reveal_strlit("fi");
    reveal_strlit("vi");
    reveal_strlit("iw");
    reveal_strlit("uk");
    reveal_strlit("el");
    reveal_strlit("ms");
    reveal_strlit("cs");
    reveal_strlit("ro");
    reveal_strlit("da");
    reveal_strlit("hu");
    reveal_strlit("ta");
    reveal_strlit("no");
    reveal_strlit("th");
    reveal_strlit("ur");
    reveal_strlit("hr");
    reveal_strlit("bg");
    reveal_strlit("lt");
    reveal_strlit("la");
    reveal_strlit("mi");
    reveal_strlit("ml");
    reveal_strlit("cy");
    reveal_strlit("sk");
    reveal_strlit("te");
    reveal_strlit("fa");
    reveal_strlit("lv");
    reveal_strlit("bn");
    reveal_strlit("sr");
    reveal_strlit("az");
    reveal_strlit("sl");
    reveal_strlit("kn");
    reveal_strlit("et");
    reveal_strlit("mk");
    reveal_strlit("br");
    reveal_strlit("eu");
    reveal_strlit("is");
    reveal_strlit("hy");
    reveal_strlit("ne");
    reveal_strlit("mn");
    reveal_strlit("bs");
    reveal_strlit("kk");
    reveal_strlit("sq");
    reveal_strlit("sw");
    reveal_strlit("gl");
    reveal_strlit("mr");
    reveal_strlit("pa");
    reveal_strlit("si");
    reveal_strlit("km");
    reveal_strlit("sn");
    reveal_strlit("yo");
    reveal_strlit("so");
    reveal_strlit("af");
    reveal_strlit("oc");
    reveal_strlit("ka");
    reveal_strlit("be");
    reveal_strlit("tg");
    reveal_strlit("sd");
    reveal_strlit("gu");
    reveal_strlit("am");
    reveal_strlit("yi");
    reveal_strlit("lo");
    reveal_strlit("uz");
    reveal_strlit("fo");
    reveal_strlit("ht");
    reveal_strlit("ps");
    reveal_strlit("tk");
    reveal_strlit("nn");
    reveal_strlit("mt");
    reveal_strlit("sa");
    reveal_strlit("lb");
    reveal_strlit("my");
    reveal_strlit("bo");
    reveal_strlit("tl");
    reveal_strlit("mg");
    reveal_strlit("as");
    reveal_strlit("tt");
    reveal_strlit("haw");
    reveal_strlit("ln");
    reveal_strlit("ha");
    reveal_strlit("ba");
    reveal_strlit("jw");
    reveal_strlit("su");
}

/// No two positions of the language list hold the same code.
pub proof fn lemma_language_codes_distinct(i: int, j: int)
    requires
        0 <= i < N_LANGUAGES,
        0 <= j < N_LANGUAGES,
        i != j,
    ensures
        language_code_at(i) != language_code_at(j),
{
    reveal_strlit("en");
    reveal_strlit("zh");
    reveal_strlit("de");
    reveal_strlit("es");
    reveal_strlit("ru");
    reveal_strlit("ko");
    reveal_strlit("fr");
    reveal_strlit("ja");
    reveal_strlit("pt");
    reveal_strlit("tr");
    reveal_strlit("pl");
    reveal_strlit("ca");
    reveal_strlit("nl");
    reveal_strlit("ar");
    reveal_strlit("sv");
    reveal_strlit("it");
    reveal_strlit("id");
    reveal_strlit("hi");
    reveal_strlit("fi");
    reveal_strlit("vi");
    reveal_strlit("iw");
    reveal_strlit("uk");
    reveal_strlit("el");
    reveal_strlit("ms");
    reveal_strlit("cs");
    reveal_strlit("ro");
    reveal_strlit("da");
    reveal_strlit("hu");
    reveal_strlit("ta");
    reveal_strlit("no");
    reveal_strlit("th");
    reveal_strlit("ur");
    reveal_strlit("hr");
    reveal_strlit("bg");
    reveal_strlit("lt");
    reveal_strlit("la");
    reveal_strlit("mi");
    reveal_strlit("ml");
    reveal_strlit("cy");
    reveal_strlit("sk");
    reveal_strlit("te");
    reveal_strlit("fa");
    reveal_strlit("lv");
    reveal_strlit("bn");
    reveal_strlit("sr");
    reveal_strlit("az");
    reveal_strlit("sl");
    reveal_strlit("kn");
    reveal_strlit("et");
    reveal_strlit("mk");
    reveal_strlit("br");
    reveal_strlit("eu");
    reveal_strlit("is");
    reveal_strlit("hy");
    reveal_strlit("ne");
    reveal_strlit("mn");
    reveal_strlit("bs");
    reveal_strlit("kk");
    reveal_strlit("sq");
    reveal_strlit("sw");
    reveal_strlit("gl");
    reveal_strlit("mr");
    reveal_strlit("pa");
    reveal_strlit("si");
    reveal_strlit("km");
    reveal_strlit("sn");
    reveal_strlit("yo");
    reveal_strlit("so");
    reveal_strlit("af");
    reveal_strlit("oc");
    reveal_strlit("ka");
    reveal_strlit("be");
    reveal_strlit("tg");
    reveal_strlit("sd");
    reveal_strlit("gu");
    reveal_strlit("am");
    reveal_strlit("yi");
    reveal_strlit("lo");
    reveal_strlit("uz");
    reveal_strlit("fo");
    reveal_strlit("ht");
    reveal_strlit("ps");
    reveal_strlit("tk");
    reveal_strlit("nn");
    reveal_strlit("mt");
    reveal_strlit("sa");
    reveal_strlit("lb");
    reveal_strlit("my");
    reveal_strlit("bo");
    reveal_strlit("tl");
    reveal_strlit("mg");
    reveal_strlit("as");
    reveal_strlit("tt");
    reveal_strlit("haw");
    reveal_strlit("ln");
    reveal_strlit("ha");
    reveal_strlit("ba");
    reveal_strlit("jw");
    reveal_strlit("su");
    assert(code_number_at(i) != code_number_at(j));
}

/// The text of a decimal digit.
pub open spec fn digit_text(digit: int) -> Seq<char> {
    if digit == 0 {
        "0"@
    } else if digit == 1 {
        "1"@
    } else if digit == 2 {
        "2"@
    } else if digit == 3 {
        "3"@
    } else if digit == 4 {
        "4"@
    } else if digit == 5 {
        "5"@
    } else if digit == 6 {
        "6"@
    } else if digit == 7 {
        "7"@
    } else if digit == 8 {
        "8"@
    } else {
        "9"@
    }
}

/// The text of a decimal digit.
pub fn digit_str(digit: usize) -> (text: &'static str)
    requires
        digit < 10,
    ensures
        text@ == digit_text(digit as int),
{
    match digit {
        0 => "0",
        1 => "1",
        2 => "2",
        3 => "3",
        4 => "4",
        5 => "5",
        6 => "6",
        7 => "7",
        8 => "8",
        _ => "9",
    }
}

/// The text of the timestamp token at `index`: the time `index * 0.02` in
/// seconds, written with two decimals, between `<|` and `|>`.
pub open spec fn timestamp_name(index: int) -> Seq<char> {
    let whole = (2 * index) / 100;
    let cents = (2 * index) % 100;
    let seconds = if whole < 10 {
        digit_text(whole)
    } else {
        digit_text(whole / 10) + digit_text(whole % 10)
    };
    "<|"@ + seconds + "."@ + digit_text(cents / 10) + digit_text(cents % 10) + "|>"@
}

/// The text of the task marker at `index` of the six.
pub open spec fn marker_name(index: int) -> Seq<char> {
    if index == 0 {
        "<|translate|>"@
    } else if index == 1 {
        "<|transcribe|>"@
    } else if index == 2 {
        "<|startoflm|>"@
    } else if index == 3 {
        "<|startofprev|>"@
    } else if index == 4 {
        "<|nospeech|>"@
    } else {
        "<|notimestamps|>"@
    }
}

/// The text of the special token at `index`.
pub open spec fn special_name(index: int) -> Seq<char> {
    if index == 0 {
        "<|endoftext|>"@
    } else if index == 1 {
        "<|startoftranscript|>"@
    } else if index < FIRST_MARKER {
        "<|"@ + language_code_at(index - FIRST_LANGUAGE) + "|>"@
    } else if index < FIRST_TIMESTAMP {
        marker_name(index - FIRST_MARKER)
    } else {
        timestamp_name(index - FIRST_TIMESTAMP)
    }
}

/// A digit's text is the one character that stands for it.
pub proof fn lemma_digit_text(digit: int)
    requires
        0 <= digit <= 9,
    ensures
        digit_text(digit).len() == 1,
        digit_text(digit)[0] as int == 48 + digit,
{
    reveal_strlit("0");
    reveal_strlit("1");
    reveal_strlit("2");
    reveal_strlit("3");
    reveal_strlit("4");
    reveal_strlit("5");
    reveal_strlit("6");
    reveal_strlit("7");
    reveal_strlit("8");
    reveal_strlit("9");
}

/// The length of a timestamp's text and the digits that stand in it.
pub proof fn lemma_timestamp_name(index: int)
    requires
        0 <= index < N_TIMESTAMPS,
    ensures
        (2 * index) / 100 < 10 ==> {
            &&& timestamp_name(index).len() == 8
            &&& timestamp_name(index)[2] as int == 48 + (2 * index) / 100
            &&& timestamp_name(index)[4] as int == 48 + ((2 * index) % 100) / 10
            &&& timestamp_name(index)[5] as int == 48 + ((2 * index) % 100) % 10
        },
        (2 * index) / 100 >= 10 ==> {
            &&& timestamp_name(index).len() == 9
            &&& timestamp_name(index)[2] as int == 48 + ((2 * index) / 100) / 10
            &&& timestamp_name(index)[3] as int == 48 + ((2 * index) / 100) % 10
            &&& timestamp_name(index)[5] as int == 48 + ((2 * index) % 100) / 10
            &&& timestamp_name(index)[6] as int == 48 + ((2 * index) % 100) % 10
        },
{
    reveal_strlit("<|");
    reveal_strlit("|>");
    reveal_strlit(".");
    let whole = (2 * index) / 100;
    let cents = (2 * index) % 100;
    lemma_digit_text(cents / 10);
    lemma_digit_text(cents % 10);
    if whole < 10 {
        lemma_digit_text(whole);
    } else {
        lemma_digit_text(whole / 10);
        lemma_digit_text(whole % 10);
    }
}

/// No two timestamps share a text.
pub proof fn lemma_timestamp_names_distinct(i: int, j: int)
    requires
        0 <= i < N_TIMESTAMPS,
        0 <= j < N_TIMESTAMPS,
        i != j,
    ensures
        timestamp_name(i) != timestamp_name(j),
{
    lemma_timestamp_name(i);
    lemma_timestamp_name(j);
}

/// The text of a language tag holds the language's code between `<|` and
/// `|>`.
pub proof fn lemma_language_tag(index: int)
    requires
        0 <= index < N_LANGUAGES,
    ensures
        6 <= special_name(index + FIRST_LANGUAGE).len() <= 7,
        special_name(index + FIRST_LANGUAGE).len() == language_code_at(index).len() + 4,
        special_name(index + FIRST_LANGUAGE).subrange(2, 2 + language_code_at(index).len() as int)
            == language_code_at(index),
{
    reveal_strlit("<|");
    reveal_strlit("|>");
    lemma_language_code_len(index);
    let code = language_code_at(index);
    let name = "<|"@ + code + "|>"@;
    assert(name.subrange(2, 2 + code.len() as int) =~= code);
}

/// The lengths of the texts that are written out in full, and the letter
/// that tells those of equal length apart.
pub proof fn lemma_fixed_names()
    ensures
        special_name(0).len() == 13 && special_name(0)[2] == 'e',
        special_name(1).len() == 21,
        marker_name(0).len() == 13 && marker_name(0)[2] == 't',
        marker_name(1).len() == 14,
        marker_name(2).len() == 13 && marker_name(2)[2] == 's',
        marker_name(3).len() == 15,
        marker_name(4).len() == 12,
        marker_name(5).len() == 16,
{
    reveal_strlit("<|endoftext|>");
    reveal_strlit("<|startoftranscript|>");
    reveal_strlit("<|translate|>");
    reveal_strlit("<|transcribe|>");
    reveal_strlit("<|startoflm|>");
    reveal_strlit("<|startofprev|>");
    reveal_strlit("<|nospeech|>");
    reveal_strlit("<|notimestamps|>");
}

/// The text of every special token opens with `<|`.
pub proof fn lemma_special_name_opens(index: int)
    requires
        0 <= index < N_SPECIALS,
    ensures
        special_name(index).len() >= 2,
        special_name(index)[0] == '<',
        special_name(index)[1] == '|',
{
    reveal_strlit("<|");
    reveal_strlit("<|endoftext|>");
    reveal_strlit("<|startoftranscript|>");
    reveal_strlit("<|translate|>");
    reveal_strlit("<|transcribe|>");
    reveal_strlit("<|startoflm|>");
    reveal_strlit("<|startofprev|>");
    reveal_strlit("<|nospeech|>");
    reveal_strlit("<|notimestamps|>");
}

/// No two special tokens share a text.
pub proof fn lemma_special_names_distinct(i: int, j: int)
    requires
        0 <= i < N_SPECIALS,
        0 <= j < N_SPECIALS,
        i != j,
    ensures
        special_name(i) != special_name(j),
{
    lemma_fixed_names();
    if FIRST_LANGUAGE <= i < FIRST_MARKER {
        lemma_language_tag(i - FIRST_LANGUAGE);
    }
    if FIRST_LANGUAGE <= j < FIRST_MARKER {
        lemma_language_tag(j - FIRST_LANGUAGE);
    }
    if FIRST_LANGUAGE <= i < FIRST_MARKER && FIRST_LANGUAGE <= j < FIRST_MARKER {
        lemma_language_codes_distinct(i - FIRST_LANGUAGE, j - FIRST_LANGUAGE);
    }
    if i >= FIRST_TIMESTAMP {
        lemma_timestamp_name(i - FIRST_TIMESTAMP);
    }
    if j >= FIRST_TIMESTAMP {
        lemma_timestamp_name(j - FIRST_TIMESTAMP);
    }
    if i >= FIRST_TIMESTAMP && j >= FIRST_TIMESTAMP {
        lemma_timestamp_names_distinct(i - FIRST_TIMESTAMP, j - FIRST_TIMESTAMP);
    }
}

/// Writes the text of the special token at `index`.
pub fn special_token_name(index: usize) -> (name: String)
    requires
        index < N_SPECIALS,
    ensures
        name@ == special_name(index as int),
{
    if index == 0 {
        String::from_str("<|endoftext|>")
    } else if index == 1 {
        String::from_str("<|startoftranscript|>")
    } else if index < FIRST_MARKER {
        let mut name = String::from_str("<|");
        name.append(language_code(index - FIRST_LANGUAGE));
        name.append("|>");
        name
    } else if index < FIRST_TIMESTAMP {
        match index - FIRST_MARKER {
            0 => String::from_str("<|translate|>"),
            1 => String::from_str("<|transcribe|>"),
            2 => String::from_str("<|startoflm|>"),
            3 => String::from_str("<|startofprev|>"),
            4 => String::from_str("<|nospeech|>"),
            _ => String::from_str("<|notimestamps|>"),
        }
    } else {
        let hundredths: usize = 2 * (index - FIRST_TIMESTAMP);
        let whole: usize = hundredths / 100;
        let cents: usize = hundredths % 100;
        let mut name = String::from_str("<|");
        if whole < 10 {
            name.append(digit_str(whole));
        } else {
            name.append(digit_str(whole / 10));
            name.append(digit_str(whole % 10));
        }
        name.append(".");
        name.append(digit_str(cents / 10));
        name.append(digit_str(cents % 10));
        name.append("|>");
        name
    }
}

/// The special tokens with the ids they take after a vocabulary of
/// `n_vocab` entries: the token at `index` gets `n_vocab + 1 + index`.
pub open spec fn special_tokens(n_vocab: int) -> Seq<(Seq<char>, usize)> {
    Seq::new(N_SPECIALS as nat, |index: int| (special_name(index), (n_vocab + 1 + index) as usize))
}

/// The view of a list of named ids.
pub open spec fn names_view(list: Seq<(String, usize)>) -> Seq<(Seq<char>, usize)> {
    Seq::new(list.len(), |i: int| (list[i].0@, list[i].1))
}

/// Lists the special tokens with their ids.
pub fn special_token_list(n_vocab: usize) -> (list: Vec<(String, usize)>)
    requires
        n_vocab + N_SPECIALS <= usize::MAX,
    ensures
        names_view(list@) == special_tokens(n_vocab as int),
{
    let mut list: Vec<(String, usize)> = Vec::new();
    let mut index: usize = 0;
    while index < N_SPECIALS
        invariant
            index <= N_SPECIALS,
            n_vocab + N_SPECIALS <= usize::MAX,
            list.len() == index,
            forall|i: int|
                0 <= i < index ==> (#[trigger] list[i]).0@ == special_name(i) && list[i].1 == n_vocab
                    + 1 + i,
        decreases N_SPECIALS - index,
    {
        list.push((special_token_name(index), n_vocab + 1 + index));
        index += 1;
    }
    assert(names_view(list@) =~= special_tokens(n_vocab as int));
    list
}

} // verus!
