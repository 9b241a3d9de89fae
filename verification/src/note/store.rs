//! Where the note is kept, and what reading it came to.

use vstd::prelude::*;
use vstd::string::*;
use vstd::utf8::*;

use crate::ascii::SLASH;
use crate::note::Note;
use crate::text::{bytes, lemma_bytes_concat};

verus! {

broadcast use {vstd::seq::group_seq_axioms, vstd::string::group_string_axioms};

/// What reading the note's file came to.
pub enum FileRead {
    /// There is no such file.
    NotFound,
    /// The bytes of the file.
    Bytes(Vec<u8>),
    /// Any other failure, in words.
    Failed { message: String },
}

/// Outcome of loading a note from disk.
#[derive(Debug)]
pub enum LoadOutcome {
    /// File missing — caller may show welcome text.
    Missing,
    /// Loaded successfully.
    Loaded(Note),
    /// File present but not valid UTF-8; content is lossily decoded.
    Lossy(Note),
    /// Other I/O error; do not overwrite the file until the user edits.
    IoError { message: String },
}

/// Bytes decoded with every malformed sequence replaced, as the standard library
/// replaces them.
pub uninterp spec fn lossy_text(b: Seq<u8>) -> Seq<char>;

/// `String::from_utf8`: a string with exactly these bytes where they are valid
/// UTF-8; otherwise the error, from which `FromUtf8Error::into_bytes` gives the
/// bytes back.
#[verifier::external_body]
pub(crate) fn decode(read: Vec<u8>) -> (r: Result<String, Vec<u8>>)
    ensures
        match r {
            Ok(s) => valid_utf8(read@) && bytes(s@) == read@,
            Err(back) => !valid_utf8(read@) && back@ == read@,
        },
{
    String::from_utf8(read).map_err(|e| e.into_bytes())
}

/// `String::from_utf8_lossy`: the text with U+FFFD in place of what is not
/// UTF-8. Which bytes share one replacement is not stated; the result depends on
/// the bytes alone and is named [`lossy_text`].
#[verifier::external_body]
fn decode_lossy(read: &[u8]) -> (r: String)
    ensures
        r@ == lossy_text(read@),
{
    String::from_utf8_lossy(read).into_owned()
}

/// Whether a read comes to `r`.
pub open spec fn loads(read: FileRead, r: LoadOutcome) -> bool {
    match read {
        FileRead::NotFound => r is Missing,
        FileRead::Failed { message } => r matches LoadOutcome::IoError { message: m } && m@
            == message@,
        FileRead::Bytes(b) => if valid_utf8(b@) {
            r matches LoadOutcome::Loaded(note) && note@ == b@
        } else {
            r matches LoadOutcome::Lossy(note) && note@ == bytes(lossy_text(b@))
        },
    }
}

/// A file that holds the text of a note reads back as that note, byte for byte.
pub proof fn law_written_note_reads_back(text: Seq<char>, read: FileRead, r: LoadOutcome)
    requires
        read matches FileRead::Bytes(b) && b@ == bytes(text),
        loads(read, r),
    ensures
        r matches LoadOutcome::Loaded(note) && note@ == bytes(text),
{
    crate::text::lemma_string_ends(text);
}

/// What a read of the note's file means for the note.
pub fn load_note(read: FileRead) -> (r: LoadOutcome)
    ensures
        loads(read, r),
{
    match read {
        FileRead::NotFound => LoadOutcome::Missing,
        FileRead::Failed { message } => LoadOutcome::IoError { message },
        FileRead::Bytes(b) => match decode(b) {
            Ok(text) => LoadOutcome::Loaded(Note::from_text(text)),
            Err(b) => LoadOutcome::Lossy(Note::from_text(decode_lossy(b.as_slice()))),
        },
    }
}

/// Path `base` with the relative path `part` under it.
pub open spec fn under(base: Seq<char>, part: Seq<char>) -> Seq<char> {
    if base.len() == 0 || base.last() == '/' {
        base + part
    } else {
        base + seq!['/'] + part
    }
}

/// `part` under `base`, with one `/` between them.
fn join_path(base: &str, part: &str) -> (r: String)
    ensures
        r@ == under(base@, part@),
{
    let b = base.as_bytes();
    let n: usize = b.len();
    proof {
        lemma_last_slash(base@);
        crate::text::lemma_bytes_empty(base@);
        reveal_strlit("/");
    }
    let mut r = String::from_str(base);
    if n > 0 && b[n - 1] != SLASH {
        r.append("/");
        assert("/"@ =~= seq!['/']);
    }
    r.append(part);
    r
}

/// A string ends in `/` exactly when its bytes do.
proof fn lemma_last_slash(s: Seq<char>)
    ensures
        s.len() > 0 ==> (s.last() == '/' <==> bytes(s).last() == SLASH),
{
    if s.len() > 0 {
        let c = s.last();
        assert(s =~= s.drop_last() + seq![c]);
        lemma_bytes_concat(s.drop_last(), seq![c]);
        crate::text::lemma_bytes_single(c);
        char_is_scalar(c);
        let u = c as u32;
        let last = encode_scalar(u).last();
        assert(u == 0x2F <==> c == '/') by {
            assert('/' as u32 == 0x2F);
            char_u32_cast(c, u);
            char_u32_cast('/', 0x2F);
        }
        assert(bytes(s).last() == last);
        if has_width_1_encoding(u) {
            assert(last == (u & 0x7F) as u8);
            assert((u & 0x7F) as u8 == 0x2F <==> u == 0x2F) by (bit_vector)
                requires
                    u <= 0x7F,
            ;
        } else {
            assert(last == 0x80u8 | (u & 0x3F) as u8);
            assert(0x80u8 | (u & 0x3F) as u8 >= 0x80u8) by (bit_vector);
        }
    }
}

/// The directory everything hangs off: the note, the settings, the backups. A
/// development build keeps its own.
fn app_support_dir(home: &str, dev: bool) -> (r: String)
    ensures
        r@ == under(under(home@, "Library/Application Support"@), app_dir(dev)),
{
    let name = if dev {
        "gravitynote-gpui-dev"
    } else {
        "gravitynote-gpui"
    };
    let library = join_path(home, "Library/Application Support");
    join_path(library.as_str(), name)
}

/// The name of the app's own directory.
pub open spec fn app_dir(dev: bool) -> Seq<char> {
    if dev {
        "gravitynote-gpui-dev"@
    } else {
        "gravitynote-gpui"@
    }
}

/// Local persistence path: `Library/Application Support/gravitynote-gpui/note.md`
/// under `home`.
pub fn default_note_path(home: &str, dev: bool) -> (r: String)
    ensures
        r@ == under(
            under(under(home@, "Library/Application Support"@), app_dir(dev)),
            "note.md"@,
        ),
{
    let dir = app_support_dir(home, dev);
    join_path(dir.as_str(), "note.md")
}

/// A path goes on behind its base with one slash between them.
pub proof fn law_one_slash_between(base: Seq<char>, part: Seq<char>)
    ensures
        ({
            let r = under(base, part);
            let n = base.len() as int;
            let bare = n == 0 || base[n - 1] == '/';
            &&& r.take(n) == base
            &&& bare ==> r == base + part
            &&& !bare ==> r[n] == '/' && r.skip(n + 1) == part
        }),
{
    let r = under(base, part);
    let n = base.len() as int;
    assert(r.take(n) =~= base);
    if !(n == 0 || base[n - 1] == '/') {
        assert(r.skip(n + 1) =~= part);
    }
}

/// A build for development keeps its files beside those of the app, never among them.
pub proof fn law_development_has_its_own_directory()
    ensures
        app_dir(true) == app_dir(false) + "-dev"@,
        app_dir(true) != app_dir(false),
        app_dir(false) == "gravitynote-gpui"@,
{
    reveal_strlit("gravitynote-gpui-dev");
    reveal_strlit("gravitynote-gpui");
    reveal_strlit("-dev");
    assert(app_dir(true) =~= app_dir(false) + "-dev"@);
    assert(app_dir(true).len() != app_dir(false).len());
}

} // verus!
