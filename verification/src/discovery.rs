//! Which files are indexed, what is read of them, and the hash that tells
//! whether one has changed.

use crate::edges;
use crate::maps::TextMap;
use crate::names::NameTable;
use crate::paths;
use crate::text;
use vstd::prelude::*;

verus! {

// ---------------------------------------------------------------------------
// Hashing
// ---------------------------------------------------------------------------

pub const FNV_OFFSET_BASIS: u64 = 0xcbf29ce484222325;

pub const FNV_PRIME: u64 = 0x100000001b3;

/// The 64-bit FNV-1a hash of some bytes.
pub open spec fn fnv(bytes: Seq<u8>) -> u64
    decreases bytes.len(),
{
    if bytes.len() == 0 {
        FNV_OFFSET_BASIS
    } else {
        (fnv(bytes.drop_last()) ^ (bytes.last() as u64)).wrapping_mul(FNV_PRIME)
    }
}

/// The last `n` hexadecimal digits of `v`.
pub open spec fn hex_digits(v: nat, n: nat) -> Seq<char>
    decreases n,
{
    if n == 0 {
        seq![]
    } else {
        hex_digits(v / 16, (n - 1) as nat).push(text::digit((v % 16) as int))
    }
}

fn push_hex(out: &mut String, v: u64, n: usize)
    ensures
        final(out)@ == old(out)@ + hex_digits(v as nat, n as nat),
    decreases n,
{
    if n > 0 {
        push_hex(out, v / 16, n - 1);
        let ghost mid = out@;
        out.push(text::digit_char(v % 16));
        assert(out@ =~= mid.push(text::digit((v % 16) as int)));
    }
    assert(out@ =~= old(out)@ + hex_digits(v as nat, n as nat));
}

/// The hash of a text: FNV-1a over its bytes, as sixteen hexadecimal digits.
pub fn hash_content(s: &str) -> (r: String)
    ensures
        r@ == hex_digits(fnv(vstd::utf8::encode_utf8(s@)) as nat, 16),
{
    let bytes = s.as_bytes();
    let mut h: u64 = FNV_OFFSET_BASIS;
    let mut i: usize = 0;
    assert(bytes@.take(0) =~= seq![]);
    while i < bytes.len()
        invariant
            i <= bytes@.len(),
            h == fnv(bytes@.take(i as int)),
        decreases bytes@.len() - i,
    {
        assert(bytes@.take(i + 1).drop_last() =~= bytes@.take(i as int));
        h = (h ^ (bytes[i] as u64)).wrapping_mul(FNV_PRIME);
        i += 1;
    }
    assert(bytes@.take(bytes@.len() as int) =~= bytes@);
    let mut out = String::new();
    push_hex(&mut out, h, 16);
    assert(out@ =~= hex_digits(fnv(vstd::utf8::encode_utf8(s@)) as nat, 16));
    out
}

proof fn lemma_hex_digits_len(v: nat, n: nat)
    ensures
        hex_digits(v, n).len() == n,
    decreases n,
{
    if n > 0 {
        lemma_hex_digits_len(v / 16, (n - 1) as nat);
    }
}

/// A hash always has sixteen digits.
pub proof fn lemma_hash_len(bytes: Seq<u8>)
    ensures
        hex_digits(fnv(bytes) as nat, 16).len() == 16,
{
    lemma_hex_digits_len(fnv(bytes) as nat, 16);
}

proof fn lemma_hex_digit_injective(a: int, b: int)
    requires
        0 <= a < 16,
        0 <= b < 16,
        text::digit(a) == text::digit(b),
    ensures
        a == b,
{
}

proof fn lemma_hex_injective(a: nat, b: nat, n: nat)
    requires
        hex_digits(a, n) == hex_digits(b, n),
        a < pow16(n),
        b < pow16(n),
    ensures
        a == b,
    decreases n,
{
    if n > 0 {
        let x = hex_digits(a, n);
        let y = hex_digits(b, n);
        assert(x.last() == text::digit((a % 16) as int));
        assert(y.last() == text::digit((b % 16) as int));
        lemma_hex_digit_injective((a % 16) as int, (b % 16) as int);
        assert(x.drop_last() =~= hex_digits(a / 16, (n - 1) as nat));
        assert(y.drop_last() =~= hex_digits(b / 16, (n - 1) as nat));
        lemma_hex_injective(a / 16, b / 16, (n - 1) as nat);
    }
}

spec fn pow16(n: nat) -> nat
    decreases n,
{
    if n == 0 {
        1
    } else {
        16 * pow16((n - 1) as nat)
    }
}

/// Two hashes are spelled alike only where they are the same number.
pub proof fn lemma_hash_spelling_injective(a: u64, b: u64)
    requires
        hex_digits(a as nat, 16) == hex_digits(b as nat, 16),
    ensures
        a == b,
{
    reveal_with_fuel(pow16, 17);
    assert(pow16(16) == 0x10000000000000000);
    lemma_hex_injective(a as nat, b as nat, 16);
}

// ---------------------------------------------------------------------------
// Choosing files
// ---------------------------------------------------------------------------

/// The file extensions that are indexed.
pub struct LanguageTable {
    /// The language of an extension.
    pub languages: TextMap,
    /// Extensions that are listed by path alone, without a parser.
    pub unparsed: NameTable,
}

/// One entry of a walk over the project's tree.
pub struct WalkEntry {
    pub path: String,
    pub is_file: bool,
}

/// Is a file with this path indexed, parsed or not?
pub open spec fn is_recognized(t: LanguageTable, path: Seq<char>) -> bool {
    match paths::extension(path) {
        Some(e) => t.languages@.contains_key(e) || t.unparsed@.contains(e),
        None => false,
    }
}

/// The language that a file is parsed as; none for one that is not parsed.
pub open spec fn language_of(t: LanguageTable, path: Seq<char>) -> Option<Seq<char>> {
    match paths::extension(path) {
        Some(e) => t.languages.at(e),
        None => None,
    }
}

/// The paths among the first `n` entries of a walk that are indexed, in order.
pub open spec fn chosen(t: LanguageTable, entries: Seq<WalkEntry>, n: nat) -> Seq<Seq<char>>
    decreases n,
{
    if n == 0 || n > entries.len() {
        seq![]
    } else {
        let init = chosen(t, entries, (n - 1) as nat);
        let e = entries[n - 1];
        if e.is_file && is_recognized(t, e.path@) {
            init.push(e.path@)
        } else {
            init
        }
    }
}

impl LanguageTable {
    pub fn recognizes(&self, path: &str) -> (r: bool)
        requires
            self.unparsed.wf(),
        ensures
            r == is_recognized(*self, path@),
    {
        let cs = text::chars_of(path);
        match paths::ext(cs.as_slice()) {
            Some(e) => {
                let key = text::string_of(e);
                self.languages.get(key.as_str()).is_some() || self.unparsed.contains(key.as_str())
            },
            None => false,
        }
    }

    pub fn language(&self, path: &str) -> (r: Option<String>)
        ensures
            edges::opt_text(r) == language_of(*self, path@),
    {
        let cs = text::chars_of(path);
        match paths::ext(cs.as_slice()) {
            Some(e) => {
                let key = text::string_of(e);
                self.languages.get(key.as_str())
            },
            None => None,
        }
    }
}

/// Append the files of a walk that are indexed to `out`.
pub fn collect_source_files(
    entries: &Vec<WalkEntry>,
    languages: &LanguageTable,
    out: &mut Vec<String>,
)
    requires
        languages.unparsed.wf(),
    ensures
        text::texts(final(out)@) == text::texts(old(out)@) + chosen(
            *languages,
            entries@,
            entries@.len(),
        ),
{
    let ghost start = text::texts(out@);
    let mut i: usize = 0;
    assert(start + seq![] =~= start);
    while i < entries.len()
        invariant
            i <= entries@.len(),
            languages.unparsed.wf(),
            text::texts(out@) == start + chosen(*languages, entries@, i as nat),
        decreases entries@.len() - i,
    {
        let e = &entries[i];
        let ghost before = out@;
        if e.is_file && languages.recognizes(e.path.as_str()) {
            out.push(e.path.clone());
            proof {
                let init = chosen(*languages, entries@, i as nat);
                assert(text::texts(out@) =~= text::texts(before).push(e.path@));
                assert((start + init).push(e.path@) =~= start + init.push(e.path@));
            }
        }
        i += 1;
    }
}

// ---------------------------------------------------------------------------
// Reading
// ---------------------------------------------------------------------------

/// A file above this size is not read: 8 MiB.
pub const MAX_INDEXABLE_FILE_BYTES: u64 = 8388608;

/// Why a file of `len` bytes is not read; nothing where it is. A file of just
/// the largest size is read.
pub open spec fn too_large(len: u64) -> Option<Seq<char>> {
    if len > MAX_INDEXABLE_FILE_BYTES {
        Some("too_large:"@ + text::decimal(len as nat))
    } else {
        None
    }
}

/// The reason not to read a file of `len` bytes.
pub fn size_skip_reason(len: u64) -> (r: Option<String>)
    ensures
        edges::opt_text(r) == too_large(len),
{
    if len > MAX_INDEXABLE_FILE_BYTES {
        let mut out: String = "too_large:".to_owned();
        text::push_decimal(&mut out, len);
        Some(out)
    } else {
        None
    }
}

/// The path of a file below the project's root, with forward slashes.
pub fn rel_path(below_root: &str) -> (r: String)
    ensures
        r@ == text::swapped(below_root@, '\\', '/'),
{
    let cs = text::chars_of(below_root);
    let swapped = text::replace_char(cs.as_slice(), '\\', '/');
    text::string_of(swapped.as_slice())
}

} // verus!
