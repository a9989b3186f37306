//! Saving and restoring a [`BufferRing`] across plugin reloads.
//!
//! The on-disk format (version 1) is line oriented:
//!
//! ```text
//! zclip-ring<TAB>1
//! <seq><TAB><name-field><TAB><escaped-text>
//! ...
//! ```
//!
//! The name field is `-` for an unnamed buffer and `n` followed by the
//! escaped name for a named one. Escaping turns `\` into `\\`, LF into
//! `\n`, CR into `\r` and TAB into `\t`; every other character passes
//! through. Ids and the limit are not persisted: a restore assigns fresh
//! ids and applies the limit configured at load time. `seq` only orders the
//! records on read; they are renumbered densely before the ring is rebuilt.
//!
//! Byte budgets are measured in UTF-8 bytes, as `str::len` counts them.

use vstd::prelude::*;
use vstd::utf8::encode_utf8;
use vstd::utf8::encode_scalar;
use crate::text;
use crate::buffer;
use crate::buffer::BufferRing;
use crate::buffer::BufferView;
use crate::buffer::PasteBuffer;
use crate::buffer::RestoredBuffer;
use crate::buffer::RestoredView;

verus! {

/// The largest encoded record, in bytes, that [`encode`] writes; a longer
/// one is left out whole, never truncated.
pub const MAX_BUFFER_BYTES: usize = 1048576;

/// The largest file body, in bytes, that [`encode`] produces.
pub const MAX_TOTAL_BYTES: usize = 4194304;

/// How long (one week, in seconds) a ring file may go untouched before
/// [`is_stale`] calls it abandoned.
pub const STALE_AFTER_SECS: u64 = 604800;

// ---------------------------------------------------------------------
// The `persist` setting
// ---------------------------------------------------------------------

/// Whether the buffer ring is written to disk across plugin reloads.
#[derive(Debug, Clone, Copy, PartialEq, Eq, Structural)]
pub enum PersistMode {
    /// Never persist (the default).
    Off,
    /// Persist for the lifetime of the session.
    Session,
}

impl Default for PersistMode {
    fn default() -> (m: Self)
        ensures
            m == PersistMode::Off,
    {
        PersistMode::Off
    }
}

/// An invalid `persist` value; carries the trimmed input.
#[derive(Debug, Clone, PartialEq, Eq)]
pub struct PersistModeError(pub String);

/// The message of a `persist` error whose input was `raw`.
pub open spec fn persist_mode_message(raw: Seq<char>) -> Seq<char> {
    "'"@ + raw + "' is not a valid persist (expected 'off' or 'session')"@
}

impl PersistModeError {
    /// The human-readable description of the error.
    pub fn message(&self) -> (m: String)
        ensures
            m@ == persist_mode_message(self.0@),
    {
        let mut out: Vec<char> = Vec::new();
        text::append_str(&mut out, "'");
        text::append_str(&mut out, self.0.as_str());
        text::append_str(&mut out, "' is not a valid persist (expected 'off' or 'session')");
        text::string_of(out.as_slice())
    }
}

/// `c` with ASCII upper-case letters turned to lower case.
pub open spec fn ascii_lower(c: char) -> char {
    if 'A' <= c <= 'Z' {
        ((c as u32) + 32) as char
    } else {
        c
    }
}

/// `s` with every ASCII upper-case letter turned to lower case.
pub open spec fn ascii_lower_seq(s: Seq<char>) -> Seq<char> {
    s.map_values(|c: char| ascii_lower(c))
}

/// What [`parse_persist_mode`] gives for `raw`: the trimmed value compared
/// case-insensitively (ASCII) with `off` and `session`; otherwise the
/// trimmed value as the error.
pub open spec fn persist_mode_of(raw: Seq<char>) -> Result<PersistMode, Seq<char>> {
    let t = text::trim(raw);
    if ascii_lower_seq(t) == "off"@ {
        Ok(PersistMode::Off)
    } else if ascii_lower_seq(t) == "session"@ {
        Ok(PersistMode::Session)
    } else {
        Err(t)
    }
}

fn lower_char(c: char) -> (r: char)
    ensures
        r == ascii_lower(c),
{
    if 'A' <= c && c <= 'Z' {
        ((c as u8) + 32) as char
    } else {
        c
    }
}

/// Whether `s`, lower-cased (ASCII), equals `word`.
fn lower_eq(s: &[char], word: &str) -> (r: bool)
    ensures
        r == (ascii_lower_seq(s@) == word@),
{
    let w = text::chars_of(word);
    if s.len() != w.len() {
        proof {
            assert(ascii_lower_seq(s@).len() != word@.len());
        }
        return false;
    }
    let mut i: usize = 0;
    while i < s.len()
        invariant
            i <= s@.len(),
            s@.len() == w@.len(),
            w@ == word@,
            forall|j: int| 0 <= j < i ==> ascii_lower(s@[j]) == w@[j],
        decreases s@.len() - i,
    {
        if lower_char(s[i]) != w[i] {
            proof {
                assert(ascii_lower_seq(s@)[i as int] != word@[i as int]);
            }
            return false;
        }
        i = i + 1;
    }
    proof {
        assert(ascii_lower_seq(s@) =~= word@);
    }
    true
}

/// Parses a `persist` value: `off` or `session`, ASCII case-insensitively,
/// after trimming surrounding whitespace; anything else is an error
/// carrying the trimmed input.
pub fn parse_persist_mode(raw: &str) -> (r: Result<PersistMode, PersistModeError>)
    ensures
        match persist_mode_of(raw@) {
            Ok(m) => r == Ok::<PersistMode, PersistModeError>(m),
            Err(t) => r matches Err(e) && e.0@ == t,
        },
{
    let cs = text::chars_of(raw);
    let t = text::trim_chars(cs.as_slice());
    if lower_eq(t.as_slice(), "off") {
        Ok(PersistMode::Off)
    } else if lower_eq(t.as_slice(), "session") {
        Ok(PersistMode::Session)
    } else {
        Err(PersistModeError(text::string_of(t.as_slice())))
    }
}

// ---------------------------------------------------------------------
// File names and staleness
// ---------------------------------------------------------------------

/// The ring file of the server process `pid`: `ring-<pid>.zclip`.
pub open spec fn ring_file_name_of(pid: u32) -> Seq<char> {
    "ring-"@ + text::decimal(pid as nat) + ".zclip"@
}

/// The temporary file of plugin instance `id`: `ring-<id>.tmp`.
pub open spec fn temp_file_name_of(id: u32) -> Seq<char> {
    "ring-"@ + text::decimal(id as nat) + ".tmp"@
}

/// The persisted-ring file name for a server process, one file per
/// process so concurrent sessions never clobber each other.
pub fn ring_file_name(zellij_pid: u32) -> (s: String)
    ensures
        s@ == ring_file_name_of(zellij_pid),
{
    let mut out: Vec<char> = Vec::new();
    text::append_str(&mut out, "ring-");
    text::push_decimal(&mut out, zellij_pid as u64);
    text::append_str(&mut out, ".zclip");
    text::string_of(out.as_slice())
}

/// The temporary file name used while writing a plugin instance's ring
/// file before renaming it into place.
pub fn temp_file_name(plugin_id: u32) -> (s: String)
    ensures
        s@ == temp_file_name_of(plugin_id),
{
    let mut out: Vec<char> = Vec::new();
    text::append_str(&mut out, "ring-");
    text::push_decimal(&mut out, plugin_id as u64);
    text::append_str(&mut out, ".tmp");
    text::string_of(out.as_slice())
}

/// Whether `s` has the shape `ring-<one or more ASCII digits>.zclip`.
pub open spec fn ring_file_shape(s: Seq<char>) -> bool {
    &&& s.len() >= 5
    &&& s.take(5) == "ring-"@
    &&& s.skip(5).len() >= 6
    &&& s.skip(5).skip(s.skip(5).len() - 6) == ".zclip"@
    &&& s.skip(5).take(s.skip(5).len() - 6).len() > 0
    &&& text::all_digits(s.skip(5).take(s.skip(5).len() - 6))
}

/// Whether `name` is a persisted-ring file name (`ring-<digits>.zclip`).
pub fn is_ring_file(name: &str) -> (b: bool)
    ensures
        b == ring_file_shape(name@),
{
    let s = text::chars_of(name);
    let prefix = text::chars_of("ring-");
    let suffix = text::chars_of(".zclip");
    if s.len() < 5 {
        return false;
    }
    let mut head: Vec<char> = Vec::new();
    text::append_range(&mut head, s.as_slice(), 0, 5);
    proof {
        assert(head@ =~= s@.take(5));
    }
    if !text::chars_eq(head.as_slice(), prefix.as_slice()) {
        return false;
    }
    let n = s.len();
    if n - 5 < 6 {
        return false;
    }
    let mut tail: Vec<char> = Vec::new();
    text::append_range(&mut tail, s.as_slice(), n - 6, n);
    proof {
        assert(tail@ =~= s@.skip(5).skip(s@.skip(5).len() - 6));
    }
    if !text::chars_eq(tail.as_slice(), suffix.as_slice()) {
        return false;
    }
    if n - 11 == 0 {
        return false;
    }
    let mut i: usize = 5;
    while i < n - 6
        invariant
            5 <= i <= n - 6,
            n == s@.len(),
            s@ == name@,
            n >= 11,
            forall|j: int| 5 <= j < i ==> text::is_digit(#[trigger] s@[j]),
        decreases n - 6 - i,
    {
        let u: u32 = s[i] as u32;
        if u < 48 || u > 57 {
            proof {
                assert(!text::is_digit(s@[i as int]));
                assert(s@.skip(5).take(s@.skip(5).len() - 6)[i - 5] == s@[i as int]);
                assert(!text::all_digits(s@.skip(5).take(s@.skip(5).len() - 6)));
            }
            return false;
        }
        i = i + 1;
    }
    proof {
        let d = s@.skip(5).take(s@.skip(5).len() - 6);
        assert forall|j: int| 0 <= j < d.len() implies text::is_digit(#[trigger] d[j]) by {
            assert(d[j] == s@[j + 5]);
        }
    }
    true
}

/// Whether a ring file last touched `age_secs` seconds ago is abandoned:
/// only strictly older than [`STALE_AFTER_SECS`].
pub fn is_stale(age_secs: u64) -> (b: bool)
    ensures
        b == (age_secs > STALE_AFTER_SECS),
{
    age_secs > STALE_AFTER_SECS
}

// ---------------------------------------------------------------------
// Escaping
// ---------------------------------------------------------------------

/// How one character is written inside a record field.
pub open spec fn escape_char(c: char) -> Seq<char> {
    if c == '\\' {
        seq!['\\', '\\']
    } else if c == '\n' {
        seq!['\\', 'n']
    } else if c == '\r' {
        seq!['\\', 'r']
    } else if c == '\t' {
        seq!['\\', 't']
    } else {
        seq![c]
    }
}

/// `s` with `\`, LF, CR and TAB escaped, everything else unchanged.
pub open spec fn escape(s: Seq<char>) -> Seq<char>
    decreases s.len(),
{
    if s.len() == 0 {
        Seq::empty()
    } else {
        escape_char(s[0]) + escape(s.drop_first())
    }
}

/// The character an escape `\x` stands for, if `x` is one of the four
/// escapes [`escape`] writes.
pub open spec fn unescaped_char(x: char) -> Option<char> {
    if x == '\\' {
        Some('\\')
    } else if x == 'n' {
        Some('\n')
    } else if x == 'r' {
        Some('\r')
    } else if x == 't' {
        Some('\t')
    } else {
        None
    }
}

/// Undoes [`escape`]: `None` for a trailing lone backslash or an unknown
/// escape.
pub open spec fn unescape(s: Seq<char>) -> Option<Seq<char>>
    decreases s.len(),
{
    if s.len() == 0 {
        Some(Seq::empty())
    } else if s[0] != '\\' {
        match unescape(s.drop_first()) {
            Some(r) => Some(seq![s[0]] + r),
            None => None,
        }
    } else if s.len() < 2 {
        None
    } else {
        match unescaped_char(s[1]) {
            Some(c) => match unescape(s.skip(2)) {
                Some(r) => Some(seq![c] + r),
                None => None,
            },
            None => None,
        }
    }
}

pub proof fn lemma_escape_append(a: Seq<char>, b: Seq<char>)
    ensures
        escape(a + b) == escape(a) + escape(b),
    decreases a.len(),
{
    if a.len() == 0 {
        assert(a + b =~= b);
    } else {
        lemma_escape_append(a.drop_first(), b);
        assert((a + b).drop_first() =~= a.drop_first() + b);
        assert((a + b)[0] == a[0]);
        assert(escape_char(a[0]) + (escape(a.drop_first()) + escape(b)) =~= (escape_char(a[0])
            + escape(a.drop_first())) + escape(b));
    }
}

/// Escaped text never holds a line feed, carriage return or tab, so a
/// record stays on one line and its fields stay apart.
pub proof fn lemma_escape_plain(s: Seq<char>)
    ensures
        forall|i: int|
            0 <= i < escape(s).len() ==> #[trigger] escape(s)[i] != '\n' && escape(s)[i] != '\t'
                && escape(s)[i] != '\r',
    decreases s.len(),
{
    if s.len() > 0 {
        lemma_escape_plain(s.drop_first());
        let e = escape_char(s[0]);
        let r = escape(s.drop_first());
        assert forall|i: int| 0 <= i < escape(s).len() implies #[trigger] escape(s)[i] != '\n'
            && escape(s)[i] != '\t' && escape(s)[i] != '\r' by {
            if i >= e.len() {
                assert(escape(s)[i] == r[i - e.len()]);
            }
        }
    }
}

/// Escaping is undone exactly: `unescape(escape(s)) == Some(s)`.
pub proof fn law_unescape_escape(s: Seq<char>)
    ensures
        unescape(escape(s)) == Some(s),
    decreases s.len(),
{
    if s.len() > 0 {
        law_unescape_escape(s.drop_first());
        let c = s[0];
        let e = escape(s);
        let r = escape(s.drop_first());
        assert(e == escape_char(c) + r);
        if c == '\\' || c == '\n' || c == '\r' || c == '\t' {
            assert(e.skip(2) =~= r);
            assert(e[0] == '\\');
        } else {
            assert(e.drop_first() =~= r);
        }
        assert(seq![c] + s.drop_first() =~= s);
    }
}

/// Appends `escape(s)` to `out`.
fn push_escaped(out: &mut Vec<char>, s: &str)
    ensures
        final(out)@ == old(out)@ + escape(s@),
{
    let cs = text::chars_of(s);
    let ghost start = out@;
    let mut i: usize = 0;
    proof {
        assert(cs@.take(0) =~= Seq::<char>::empty());
        assert(start + escape(Seq::<char>::empty()) =~= start);
    }
    while i < cs.len()
        invariant
            i <= cs@.len(),
            cs@ == s@,
            out@ == start + escape(cs@.take(i as int)),
        decreases cs@.len() - i,
    {
        let c = cs[i];
        if c == '\\' {
            out.push('\\');
            out.push('\\');
        } else if c == '\n' {
            out.push('\\');
            out.push('n');
        } else if c == '\r' {
            out.push('\\');
            out.push('r');
        } else if c == '\t' {
            out.push('\\');
            out.push('t');
        } else {
            out.push(c);
        }
        proof {
            assert(cs@.take(i + 1) =~= cs@.take(i as int) + seq![c]);
            lemma_escape_append(cs@.take(i as int), seq![c]);
            assert(seq![c].drop_first() =~= Seq::<char>::empty());
            assert(escape(Seq::<char>::empty()) =~= Seq::<char>::empty());
            assert(seq![c][0] == c);
            assert(escape(seq![c]) == escape_char(c) + escape(seq![c].drop_first()));
            assert(escape(seq![c]) =~= escape_char(c));
        }
        i = i + 1;
    }
    proof {
        assert(cs@.take(cs@.len() as int) =~= cs@);
    }
}

/// `unescape(s[i..])`, given the part already decoded.
pub open spec fn unescape_from(s: Seq<char>, i: int, done: Seq<char>) -> Option<Seq<char>> {
    match unescape(s.skip(i)) {
        Some(r) => Some(done + r),
        None => None,
    }
}

/// Undoes [`escape`]; `None` on a trailing lone backslash or an escape
/// other than the four [`escape`] writes.
fn unescape_chars(s: &[char]) -> (r: Option<Vec<char>>)
    ensures
        match unescape(s@) {
            Some(t) => r matches Some(v) && v@ == t,
            None => r is None,
        },
{
    let mut out: Vec<char> = Vec::new();
    let mut i: usize = 0;
    proof {
        assert(s@.skip(0) =~= s@);
        assert(Seq::<char>::empty() + Seq::<char>::empty() =~= Seq::<char>::empty());
    }
    while i < s.len()
        invariant
            i <= s@.len(),
            unescape(s@) == unescape_from(s@, i as int, out@),
        decreases s@.len() - i,
    {
        let c = s[i];
        proof {
            assert(s@.skip(i as int)[0] == c);
        }
        if c != '\\' {
            proof {
                assert(s@.skip(i as int).drop_first() =~= s@.skip(i + 1));
                match unescape(s@.skip(i + 1)) {
                    Some(r) => {
                        assert(out@ + (seq![c] + r) =~= out@.push(c) + r);
                    },
                    None => {},
                }
            }
            out.push(c);
            i = i + 1;
        } else {
            if i + 1 >= s.len() {
                return None;
            }
            let x = s[i + 1];
            proof {
                assert(s@.skip(i as int)[1] == x);
                assert(s@.skip(i as int).skip(2) =~= s@.skip(i + 2));
            }
            let d = if x == '\\' {
                '\\'
            } else if x == 'n' {
                '\n'
            } else if x == 'r' {
                '\r'
            } else if x == 't' {
                '\t'
            } else {
                return None;
            };
            proof {
                match unescape(s@.skip(i + 2)) {
                    Some(r) => {
                        assert(out@ + (seq![d] + r) =~= out@.push(d) + r);
                    },
                    None => {},
                }
            }
            out.push(d);
            i = i + 2;
        }
    }
    proof {
        assert(s@.skip(i as int) =~= Seq::<char>::empty());
        assert(out@ + Seq::<char>::empty() =~= out@);
    }
    Some(out)
}

// ---------------------------------------------------------------------
// Byte lengths
// ---------------------------------------------------------------------

/// The number of bytes of the UTF-8 encoding of `s` (what `str::len`
/// returns).
pub open spec fn byte_len(s: Seq<char>) -> nat {
    encode_utf8(s).len()
}

pub proof fn lemma_encode_append(a: Seq<char>, b: Seq<char>)
    ensures
        encode_utf8(a + b) == encode_utf8(a) + encode_utf8(b),
    decreases a.len(),
{
    if a.len() == 0 {
        assert(a + b =~= b);
        assert(encode_utf8(a) =~= Seq::<u8>::empty());
        assert(Seq::<u8>::empty() + encode_utf8(b) =~= encode_utf8(b));
    } else {
        lemma_encode_append(a.drop_first(), b);
        assert((a + b).drop_first() =~= a.drop_first() + b);
        assert((a + b)[0] == a[0]);
        assert(encode_scalar(a[0] as u32) + (encode_utf8(a.drop_first()) + encode_utf8(b))
            =~= (encode_scalar(a[0] as u32) + encode_utf8(a.drop_first())) + encode_utf8(b));
    }
}

pub proof fn lemma_byte_len_append(a: Seq<char>, b: Seq<char>)
    ensures
        byte_len(a + b) == byte_len(a) + byte_len(b),
{
    lemma_encode_append(a, b);
}

pub proof fn lemma_byte_len_push(a: Seq<char>, c: char)
    ensures
        byte_len(a.push(c)) == byte_len(a) + encode_scalar(c as u32).len(),
{
    lemma_encode_append(a, seq![c]);
    assert(a + seq![c] =~= a.push(c));
    assert(seq![c].drop_first() =~= Seq::<char>::empty());
    assert(encode_utf8(Seq::<char>::empty()) =~= Seq::<u8>::empty());
    assert(seq![c][0] == c);
    assert(encode_utf8(seq![c]) == encode_scalar(c as u32) + encode_utf8(seq![c].drop_first()));
    assert(encode_utf8(seq![c]) =~= encode_scalar(c as u32) + Seq::<u8>::empty());
}

/// The number of UTF-8 bytes of `c`.
fn char_width(c: char) -> (w: usize)
    ensures
        w == encode_scalar(c as u32).len(),
        1 <= w <= 4,
{
    let v: u32 = c as u32;
    proof {
        vstd::utf8::char_is_scalar(c);
    }
    if v <= 0x7F {
        1
    } else if v <= 0x7FF {
        2
    } else if v <= 0xFFFF {
        3
    } else {
        4
    }
}

/// The UTF-8 length of `s` when it is at most `cap`; `None` when longer.
fn byte_len_within(s: &[char], cap: usize) -> (r: Option<usize>)
    requires
        cap <= MAX_TOTAL_BYTES,
    ensures
        match r {
            Some(n) => n == byte_len(s@) && n <= cap,
            None => byte_len(s@) > cap,
        },
{
    let mut acc: usize = 0;
    let mut i: usize = 0;
    proof {
        assert(s@.take(0) =~= Seq::<char>::empty());
    }
    while i < s.len()
        invariant
            i <= s@.len(),
            cap <= MAX_TOTAL_BYTES,
            acc == byte_len(s@.take(i as int)),
            acc <= cap,
        decreases s@.len() - i,
    {
        let w = char_width(s[i]);
        proof {
            assert(s@.take(i + 1) =~= s@.take(i as int).push(s@[i as int]));
            lemma_byte_len_push(s@.take(i as int), s@[i as int]);
        }
        if acc + w > cap {
            proof {
                lemma_byte_len_append(s@.take(i + 1), s@.skip(i + 1));
                assert(s@.take(i + 1) + s@.skip(i + 1) =~= s@);
            }
            return None;
        }
        acc = acc + w;
        i = i + 1;
    }
    proof {
        assert(s@.take(i as int) =~= s@);
    }
    Some(acc)
}

// ---------------------------------------------------------------------
// Encoding
// ---------------------------------------------------------------------

/// The first line of every ring file.
pub open spec fn header_line() -> Seq<char> {
    "zclip-ring\t1\n"@
}

/// The name field of a record: `-` for an unnamed buffer, `n` and the
/// escaped name for a named one.
pub open spec fn name_field(name: Option<Seq<char>>) -> Seq<char> {
    match name {
        None => seq!['-'],
        Some(n) => seq!['n'] + escape(n),
    }
}

/// A buffer's record line, without its line feed.
pub open spec fn record_line(b: BufferView) -> Seq<char> {
    text::decimal(b.seq as nat) + seq!['\t'] + name_field(b.name) + seq!['\t'] + escape(b.text)
}

/// What the byte budget needs to know of one buffer.
pub struct Candidate {
    /// Whether the buffer is named.
    pub named: bool,
    /// Its record's size in bytes, line feed included.
    pub size: nat,
    /// Whether its record is within [`MAX_BUFFER_BYTES`].
    pub fits: bool,
}

pub open spec fn candidate_of(b: BufferView) -> Candidate {
    Candidate {
        named: b.name is Some,
        size: byte_len(record_line(b)) + 1,
        fits: byte_len(record_line(b)) <= MAX_BUFFER_BYTES,
    }
}

pub open spec fn candidates(bs: Seq<BufferView>) -> Seq<Candidate> {
    bs.map_values(|b: BufferView| candidate_of(b))
}

/// One admission pass over `c` in order: a fitting candidate whose
/// namedness is `named` is admitted when the running total `used` plus its
/// size stays within [`MAX_TOTAL_BYTES`]; the others keep their flag from
/// `prev`. The unnamed pass stops at the first candidate that does not fit
/// the budget: no later one is admitted. Gives the flags, the final total
/// and whether the pass stopped.
pub open spec fn admit_pass(c: Seq<Candidate>, named: bool, used: nat, prev: Seq<bool>) -> (
    Seq<bool>,
    nat,
    bool,
)
    decreases c.len(),
{
    if c.len() == 0 {
        (Seq::empty(), used, false)
    } else {
        let r = admit_pass(c.drop_last(), named, used, prev.drop_last());
        let x = c.last();
        let eligible = x.fits && x.named == named && !r.2;
        if eligible && r.1 + x.size <= MAX_TOTAL_BYTES {
            (r.0.push(true), r.1 + x.size, r.2)
        } else if eligible && !named {
            (r.0.push(prev.last()), r.1, true)
        } else {
            (r.0.push(prev.last()), r.1, r.2)
        }
    }
}

/// Which buffers [`encode`] writes: named buffers claim the budget first,
/// in ring order; then unnamed ones fill what is left, in ring order, until
/// the next one would pass the budget.
pub open spec fn admitted(bs: Seq<BufferView>) -> Seq<bool> {
    let c = candidates(bs);
    let first = admit_pass(c, true, byte_len(header_line()), Seq::new(c.len(), |i: int| false));
    admit_pass(c, false, first.1, first.0).0
}

/// The record lines (each followed by a line feed) of the buffers whose
/// flag is set, in ring order.
pub open spec fn admitted_lines(bs: Seq<BufferView>, flags: Seq<bool>) -> Seq<char>
    decreases bs.len(),
{
    if bs.len() == 0 {
        Seq::empty()
    } else {
        admitted_lines(bs.drop_last(), flags.drop_last()) + if flags.last() {
            record_line(bs.last()).push('\n')
        } else {
            Seq::empty()
        }
    }
}

/// How many flags are unset.
pub open spec fn count_false(flags: Seq<bool>) -> nat
    decreases flags.len(),
{
    if flags.len() == 0 {
        0
    } else {
        count_false(flags.drop_last()) + if flags.last() {
            0nat
        } else {
            1nat
        }
    }
}

/// The file body [`encode`] writes for a ring holding `bs`.
pub open spec fn encoded_body(bs: Seq<BufferView>) -> Seq<char> {
    header_line() + admitted_lines(bs, admitted(bs))
}

/// The result of encoding a ring.
#[derive(Debug, Clone, PartialEq, Eq)]
pub struct Encoded {
    /// The file body: the header line, then one line per admitted buffer.
    pub body: String,
    /// How many buffers were left out, over either budget.
    pub skipped: usize,
}

/// A buffer's record line.
fn record_line_of(b: &PasteBuffer) -> (r: Vec<char>)
    ensures
        r@ == record_line(b@),
{
    let mut out: Vec<char> = Vec::new();
    text::push_decimal(&mut out, b.seq());
    out.push('\t');
    let ghost before_name = out@;
    match b.name() {
        None => {
            out.push('-');
        },
        Some(n) => {
            out.push('n');
            push_escaped(&mut out, n);
        },
    }
    proof {
        assert(out@ =~= before_name + name_field(b@.name));
    }
    out.push('\t');
    push_escaped(&mut out, b.text());
    proof {
        assert(out@ =~= record_line(b@));
    }
    out
}

pub proof fn lemma_header_bytes()
    ensures
        byte_len(header_line()) == 13,
{
    reveal_strlit("zclip-ring\t1\n");
    let h = header_line();
    assert(h.len() == 13);
    assert(vstd::utf8::is_ascii_chars(h));
    vstd::utf8::is_ascii_chars_encode_utf8(h);
}

/// One admission pass over owned candidate facts.
fn admit_pass_vec(
    named: &Vec<bool>,
    fits: &Vec<bool>,
    sizes: &Vec<usize>,
    want_named: bool,
    used: usize,
    prev: &Vec<bool>,
    Ghost(c): Ghost<Seq<Candidate>>,
) -> (r: (Vec<bool>, usize))
    requires
        named@.len() == c.len(),
        fits@.len() == c.len(),
        sizes@.len() == c.len(),
        prev@.len() == c.len(),
        used <= MAX_TOTAL_BYTES,
        forall|i: int|
            0 <= i < c.len() ==> named@[i] == (#[trigger] c[i]).named && fits@[i] == c[i].fits && (
            c[i].fits ==> sizes@[i] == c[i].size && sizes@[i] <= MAX_BUFFER_BYTES + 1),
    ensures
        r.0@ == admit_pass(c, want_named, used as nat, prev@).0,
        r.1 == admit_pass(c, want_named, used as nat, prev@).1,
        r.1 <= MAX_TOTAL_BYTES,
{
    let mut flags: Vec<bool> = Vec::new();
    let mut total: usize = used;
    let mut stopped = false;
    let mut i: usize = 0;
    proof {
        assert(c.take(0) =~= Seq::<Candidate>::empty());
        assert(prev@.take(0) =~= Seq::<bool>::empty());
    }
    while i < named.len()
        invariant
            i <= c.len(),
            named@.len() == c.len(),
            fits@.len() == c.len(),
            sizes@.len() == c.len(),
            prev@.len() == c.len(),
            forall|j: int|
                0 <= j < c.len() ==> named@[j] == (#[trigger] c[j]).named && fits@[j] == c[j].fits
                    && (c[j].fits ==> sizes@[j] == c[j].size && sizes@[j] <= MAX_BUFFER_BYTES + 1),
            flags@ == admit_pass(c.take(i as int), want_named, used as nat, prev@.take(i as int)).0,
            total == admit_pass(c.take(i as int), want_named, used as nat, prev@.take(i as int)).1,
            stopped == admit_pass(c.take(i as int), want_named, used as nat, prev@.take(i as int)).2,
            total <= MAX_TOTAL_BYTES,
        decreases c.len() - i,
    {
        proof {
            assert(c.take(i + 1).drop_last() =~= c.take(i as int));
            assert(prev@.take(i + 1).drop_last() =~= prev@.take(i as int));
            assert(c.take(i + 1).last() == c[i as int]);
            assert(prev@.take(i + 1).last() == prev@[i as int]);
        }
        let eligible = fits[i] && named[i] == want_named && !stopped;
        if eligible && total + sizes[i] <= MAX_TOTAL_BYTES {
            flags.push(true);
            total = total + sizes[i];
        } else {
            if eligible && !want_named {
                stopped = true;
            }
            flags.push(prev[i]);
        }
        i = i + 1;
    }
    proof {
        assert(c.take(c.len() as int) =~= c);
        assert(prev@.take(c.len() as int) =~= prev@);
    }
    (flags, total)
}

/// Encodes a ring in the version-1 format.
///
/// A record longer than [`MAX_BUFFER_BYTES`] is left out whole. Of the
/// rest, named buffers claim the [`MAX_TOTAL_BYTES`] budget first, in ring
/// order; then unnamed ones fill what remains, in ring order, until the
/// next one would pass the budget; the admitted records
/// are written in ring order (most recent first). `skipped` counts every
/// buffer left out.
pub fn encode(ring: &BufferRing) -> (e: Encoded)
    ensures
        e.body@ == encoded_body(ring@.buffers),
        e.skipped == count_false(admitted(ring@.buffers)),
        byte_len(e.body@) <= MAX_TOTAL_BYTES,
{
    let count = ring.len();
    let ghost bs = ring@.buffers;
    let ghost c = candidates(bs);
    let mut lines: Vec<Vec<char>> = Vec::new();
    let mut named: Vec<bool> = Vec::new();
    let mut fits: Vec<bool> = Vec::new();
    let mut sizes: Vec<usize> = Vec::new();
    let mut none: Vec<bool> = Vec::new();
    let mut i: usize = 0;
    while i < count
        invariant
            i <= count,
            count == bs.len(),
            bs == ring@.buffers,
            c == candidates(bs),
            lines@.len() == i,
            named@.len() == i,
            fits@.len() == i,
            sizes@.len() == i,
            none@.len() == i,
            forall|j: int| 0 <= j < i ==> (#[trigger] lines@[j])@ == record_line(bs[j]),
            forall|j: int|
                0 <= j < i ==> named@[j] == (#[trigger] c[j]).named && fits@[j] == c[j].fits && (
                c[j].fits ==> sizes@[j] == c[j].size && sizes@[j] <= MAX_BUFFER_BYTES + 1),
            forall|j: int| 0 <= j < i ==> !(#[trigger] none@[j]),
        decreases count - i,
    {
        let b = ring.get(i).unwrap();
        let line = record_line_of(b);
        let n = byte_len_within(line.as_slice(), MAX_BUFFER_BYTES);
        proof {
            assert(bs[i as int] == b@);
            assert(c[i as int] == candidate_of(b@));
        }
        match n {
            Some(k) => {
                fits.push(true);
                sizes.push(k + 1);
            },
            None => {
                fits.push(false);
                sizes.push(0);
            },
        }
        named.push(b.is_named());
        none.push(false);
        lines.push(line);
        i = i + 1;
    }
    proof {
        lemma_header_bytes();
        assert(none@ =~= Seq::new(c.len(), |j: int| false));
    }
    let header = "zclip-ring\t1\n";
    let first = admit_pass_vec(&named, &fits, &sizes, true, 13, &none, Ghost(c));
    proof {
        lemma_admit_pass(c, true, 13, none@);
        assert forall|j: int| 0 <= j < c.len() && #[trigger] first.0@[j] implies c[j].named != false by {
            assert(!none@[j]);
        }
        lemma_admit_pass(c, false, first.1 as nat, first.0@);
    }
    let second = admit_pass_vec(&named, &fits, &sizes, false, first.1, &first.0, Ghost(c));
    let flags = second.0;
    proof {
        assert(flags@ == admitted(bs));
    }
    let mut out: Vec<char> = Vec::new();
    text::append_str(&mut out, header);
    let mut skipped: usize = 0;
    let mut k: usize = 0;
    proof {
        assert(bs.take(0) =~= Seq::<BufferView>::empty());
        assert(flags@.take(0) =~= Seq::<bool>::empty());
        assert(out@ =~= header_line() + admitted_lines(bs.take(0), flags@.take(0)));
    }
    while k < lines.len()
        invariant
            k <= lines@.len(),
            lines@.len() == bs.len(),
            flags@.len() == bs.len(),
            forall|j: int| 0 <= j < bs.len() ==> (#[trigger] lines@[j])@ == record_line(bs[j]),
            out@ == header_line() + admitted_lines(bs.take(k as int), flags@.take(k as int)),
            skipped == count_false(flags@.take(k as int)),
            skipped <= k,
        decreases lines@.len() - k,
    {
        proof {
            assert(bs.take(k + 1).drop_last() =~= bs.take(k as int));
            assert(flags@.take(k + 1).drop_last() =~= flags@.take(k as int));
            assert(bs.take(k + 1).last() == bs[k as int]);
            assert(flags@.take(k + 1).last() == flags@[k as int]);
        }
        let ghost before = out@;
        if flags[k] {
            text::append_all(&mut out, lines[k].as_slice());
            out.push('\n');
            proof {
                assert(out@ =~= before + record_line(bs[k as int]).push('\n'));
            }
        } else {
            skipped = skipped + 1;
            proof {
                assert(out@ =~= before + Seq::<char>::empty());
            }
        }
        k = k + 1;
    }
    proof {
        assert(bs.take(k as int) =~= bs);
        assert(flags@.take(k as int) =~= flags@);
        lemma_encoded_size(bs);
    }
    Encoded { body: text::string_of(out.as_slice()), skipped }
}

/// The total size of the candidates whose flag is set.
pub open spec fn flagged_size(c: Seq<Candidate>, f: Seq<bool>) -> nat
    decreases c.len(),
{
    if c.len() == 0 {
        0
    } else {
        flagged_size(c.drop_last(), f.drop_last()) + if f.last() {
            c.last().size
        } else {
            0nat
        }
    }
}

/// The total size of the candidates set in `f` but not in `g`.
pub open spec fn added_size(c: Seq<Candidate>, f: Seq<bool>, g: Seq<bool>) -> nat
    decreases c.len(),
{
    if c.len() == 0 {
        0
    } else {
        added_size(c.drop_last(), f.drop_last(), g.drop_last()) + if f.last() && !g.last() {
            c.last().size
        } else {
            0nat
        }
    }
}

/// What one admission pass does: flags already set stay set, newly set
/// ones are fitting candidates of the pass's kind, and the total grows by
/// exactly their sizes without passing the budget.
pub proof fn lemma_admit_pass(c: Seq<Candidate>, named: bool, used: nat, prev: Seq<bool>)
    requires
        prev.len() == c.len(),
        used <= MAX_TOTAL_BYTES,
        forall|i: int| 0 <= i < c.len() && #[trigger] prev[i] ==> c[i].named != named,
    ensures
        admit_pass(c, named, used, prev).0.len() == c.len(),
        admit_pass(c, named, used, prev).1 == used + added_size(c, admit_pass(c, named, used, prev).0, prev),
        admit_pass(c, named, used, prev).1 <= MAX_TOTAL_BYTES,
        forall|i: int| 0 <= i < c.len() && #[trigger] prev[i] ==> admit_pass(c, named, used, prev).0[i],
        forall|i: int|
            0 <= i < c.len() && #[trigger] admit_pass(c, named, used, prev).0[i] && !prev[i]
                ==> c[i].named == named,
    decreases c.len(),
{
    if c.len() > 0 {
        let ci = c.drop_last();
        let pi = prev.drop_last();
        assert forall|i: int| 0 <= i < ci.len() && #[trigger] pi[i] implies ci[i].named != named by {
            assert(pi[i] == prev[i] && ci[i] == c[i]);
        }
        lemma_admit_pass(ci, named, used, pi);
        let r = admit_pass(ci, named, used, pi);
        let out = admit_pass(c, named, used, prev);
        assert(out.0.drop_last() =~= r.0);
        assert forall|i: int| 0 <= i < c.len() && #[trigger] prev[i] implies out.0[i] by {
            if i < c.len() - 1 {
                assert(pi[i] == prev[i]);
                assert(out.0[i] == r.0[i]);
            } else {
                assert(prev.last() == prev[i]);
            }
        }
        assert forall|i: int| 0 <= i < c.len() && #[trigger] out.0[i] && !prev[i] implies c[i].named
            == named by {
            if i < c.len() - 1 {
                assert(pi[i] == prev[i]);
                assert(out.0[i] == r.0[i]);
                assert(ci[i] == c[i]);
            }
        }
        if out.0.last() && prev.last() {
            assert(prev[c.len() - 1]);
            assert(c.last().named != named);
        }
    }
}

pub proof fn lemma_added_from_nothing(c: Seq<Candidate>, f: Seq<bool>, g: Seq<bool>)
    requires
        f.len() == c.len(),
        g.len() == c.len(),
        forall|i: int| 0 <= i < c.len() ==> !(#[trigger] g[i]),
    ensures
        added_size(c, f, g) == flagged_size(c, f),
    decreases c.len(),
{
    if c.len() > 0 {
        let gi = g.drop_last();
        assert forall|i: int| 0 <= i < c.len() - 1 implies !(#[trigger] gi[i]) by {
            assert(gi[i] == g[i]);
        }
        lemma_added_from_nothing(c.drop_last(), f.drop_last(), gi);
        assert(!g[c.len() - 1]);
    }
}

pub proof fn lemma_added_on_top(c: Seq<Candidate>, f: Seq<bool>, g: Seq<bool>)
    requires
        f.len() == c.len(),
        g.len() == c.len(),
        forall|i: int| 0 <= i < c.len() && #[trigger] g[i] ==> f[i],
    ensures
        flagged_size(c, g) + added_size(c, f, g) == flagged_size(c, f),
    decreases c.len(),
{
    if c.len() > 0 {
        let fi = f.drop_last();
        let gi = g.drop_last();
        assert forall|i: int| 0 <= i < c.len() - 1 && #[trigger] gi[i] implies fi[i] by {
            assert(gi[i] == g[i] && fi[i] == f[i]);
        }
        lemma_added_on_top(c.drop_last(), fi, gi);
        if g.last() {
            assert(g[c.len() - 1]);
        }
    }
}

/// The admitted lines take exactly the flagged candidates' sizes in bytes.
pub proof fn lemma_admitted_lines_bytes(bs: Seq<BufferView>, f: Seq<bool>)
    requires
        f.len() == bs.len(),
    ensures
        byte_len(admitted_lines(bs, f)) == flagged_size(candidates(bs), f),
    decreases bs.len(),
{
    if bs.len() > 0 {
        let c = candidates(bs);
        lemma_admitted_lines_bytes(bs.drop_last(), f.drop_last());
        assert(candidates(bs.drop_last()) =~= c.drop_last());
        let line = record_line(bs.last());
        lemma_byte_len_push(line, '\n');
        let tail = if f.last() {
            line.push('\n')
        } else {
            Seq::empty()
        };
        lemma_byte_len_append(admitted_lines(bs.drop_last(), f.drop_last()), tail);
        assert(encode_utf8(Seq::<char>::empty()) =~= Seq::<u8>::empty());
        assert(c.last() == candidate_of(bs.last()));
    }
}

/// The encoded body never exceeds [`MAX_TOTAL_BYTES`].
pub proof fn lemma_encoded_size(bs: Seq<BufferView>)
    ensures
        byte_len(encoded_body(bs)) <= MAX_TOTAL_BYTES,
{
    let c = candidates(bs);
    let none = Seq::new(c.len(), |i: int| false);
    lemma_header_bytes();
    lemma_admit_pass(c, true, 13, none);
    let first = admit_pass(c, true, 13, none);
    assert forall|i: int| 0 <= i < c.len() && #[trigger] first.0[i] implies c[i].named != false by {
        assert(!none[i]);
    }
    lemma_admit_pass(c, false, first.1, first.0);
    let second = admit_pass(c, false, first.1, first.0);
    lemma_added_from_nothing(c, first.0, none);
    lemma_added_on_top(c, second.0, first.0);
    lemma_admitted_lines_bytes(bs, second.0);
    lemma_byte_len_append(header_line(), admitted_lines(bs, second.0));
}

// ---------------------------------------------------------------------
// Decoding
// ---------------------------------------------------------------------

/// `l` without one trailing carriage return.
pub open spec fn strip_cr(l: Seq<char>) -> Seq<char> {
    if l.len() > 0 && l.last() == '\r' {
        l.drop_last()
    } else {
        l
    }
}

/// The lines of `s` as `str::lines` gives them: split at line feeds, a
/// carriage return just before a line feed dropped, and no empty last line
/// for a trailing line feed.
pub open spec fn lines_of(s: Seq<char>) -> Seq<Seq<char>> {
    let p = text::split_on(s, '\n');
    let ended = p.drop_last().map_values(|l: Seq<char>| strip_cr(l));
    if p.last().len() == 0 {
        ended
    } else {
        ended.push(p.last())
    }
}

/// The name a record's name field stands for: `Some(None)` for `-`,
/// `Some(Some(n))` for `n` and an escaped name, `None` for anything else.
pub open spec fn parse_name_field(f: Seq<char>) -> Option<Option<Seq<char>>> {
    if f == seq!['-'] {
        Some(None)
    } else if f.len() > 0 && f[0] == 'n' {
        match unescape(f.drop_first()) {
            Some(n) => Some(Some(n)),
            None => None,
        }
    } else {
        None
    }
}

/// A record line read back: exactly three tab-separated fields, a
/// `u64` creation number, a valid name field and validly escaped text.
pub open spec fn parse_record(line: Seq<char>) -> Option<RestoredView> {
    let f = text::split_on(line, '\t');
    if f.len() != 3 {
        None
    } else {
        match text::parse_unsigned(f[0], u64::MAX as nat) {
            None => None,
            Some(n) => match parse_name_field(f[1]) {
                None => None,
                Some(name) => match unescape(f[2]) {
                    None => None,
                    Some(t) => Some(RestoredView { seq: n as u64, name, text: t }),
                },
            },
        }
    }
}

/// The records of the lines after the header, in file order, and how many
/// non-empty lines were skipped (malformed, or with blank text).
pub open spec fn records_of(lines: Seq<Seq<char>>) -> (Seq<RestoredView>, nat)
    decreases lines.len(),
{
    if lines.len() == 0 {
        (Seq::empty(), 0)
    } else {
        let r = records_of(lines.drop_last());
        let l = lines.last();
        if l.len() == 0 {
            r
        } else {
            match parse_record(l) {
                Some(e) => if text::is_blank(e.text) {
                    (r.0, r.1 + 1)
                } else {
                    (r.0.push(e), r.1)
                },
                None => (r.0, r.1 + 1),
            }
        }
    }
}

/// Newest-first records renumbered densely: the first gets `s.len()`, the
/// last `1`.
pub open spec fn renumber(s: Seq<RestoredView>) -> Seq<RestoredView> {
    Seq::new(
        s.len(),
        |k: int| RestoredView { seq: (s.len() - k) as u64, name: s[k].name, text: s[k].text },
    )
}

/// Why a body is not a ring file at all.
pub enum DecodeFailure {
    /// Empty or whitespace-only input.
    Empty,
    /// The first line is not the `zclip-ring` header.
    MissingHeader,
    /// The header names another version (possibly empty).
    UnsupportedVersion(Seq<char>),
}

/// The header's version field (empty when it has none).
pub open spec fn header_version(header: Seq<char>) -> Seq<char> {
    let f = text::split_on(header, '\t');
    if f.len() > 1 {
        f[1]
    } else {
        Seq::empty()
    }
}

/// What [`decode`] reads from `body`: the entries handed to
/// [`BufferRing::restore`] (newest first, renumbered) and the number of
/// skipped records, or why the body is not a ring file.
pub open spec fn decode_of(body: Seq<char>) -> Result<(Seq<RestoredView>, nat), DecodeFailure> {
    let ls = lines_of(body);
    if text::is_blank(body) {
        Err(DecodeFailure::Empty)
    } else if ls.len() == 0 || text::split_on(ls[0], '\t')[0] != "zclip-ring"@ {
        Err(DecodeFailure::MissingHeader)
    } else if header_version(ls[0]) != "1"@ {
        Err(DecodeFailure::UnsupportedVersion(header_version(ls[0])))
    } else {
        let r = records_of(ls.drop_first());
        Ok((renumber(buffer::sort_desc(r.0)), r.1))
    }
}

/// A successfully decoded ring.
#[derive(Debug)]
pub struct Restored {
    /// The rebuilt ring.
    pub ring: BufferRing,
    /// How many records were malformed (or had blank text) and skipped.
    pub skipped_records: usize,
}

/// Why a persisted body could not be decoded at all.
#[derive(Debug, Clone, PartialEq, Eq)]
pub enum DecodeError {
    /// The input was empty or whitespace only.
    Empty,
    /// The first line was not the `zclip-ring` header.
    MissingHeader,
    /// The header named a version other than `1`; carries it (empty when
    /// the header had no version field).
    UnsupportedVersion(String),
}

impl View for DecodeError {
    type V = DecodeFailure;

    open spec fn view(&self) -> DecodeFailure {
        match self {
            DecodeError::Empty => DecodeFailure::Empty,
            DecodeError::MissingHeader => DecodeFailure::MissingHeader,
            DecodeError::UnsupportedVersion(v) => DecodeFailure::UnsupportedVersion(v@),
        }
    }
}

impl DecodeError {
    /// The human-readable description of the error.
    pub fn message(&self) -> (m: String)
        ensures
            match self {
                DecodeError::Empty => m@ == "persisted ring is empty"@,
                DecodeError::MissingHeader => m@
                    == "persisted ring is missing the 'zclip-ring' header"@,
                DecodeError::UnsupportedVersion(v) => m@ == "persisted ring has unsupported version '"@
                    + v@ + "'"@,
            },
    {
        match self {
            DecodeError::Empty => "persisted ring is empty".to_owned(),
            DecodeError::MissingHeader => "persisted ring is missing the 'zclip-ring' header".to_owned(),
            DecodeError::UnsupportedVersion(v) => {
                let mut out: Vec<char> = Vec::new();
                text::append_str(&mut out, "persisted ring has unsupported version '");
                text::append_str(&mut out, v.as_str());
                text::append_str(&mut out, "'");
                text::string_of(out.as_slice())
            },
        }
    }
}

/// The lines of `s` (see [`lines_of`]).
fn lines_vec(s: &[char]) -> (r: Vec<Vec<char>>)
    ensures
        r@.len() == lines_of(s@).len(),
        forall|i: int| 0 <= i < r@.len() ==> #[trigger] r@[i]@ == lines_of(s@)[i],
{
    let pieces = text::split_chars(s, '\n');
    proof {
        text::lemma_split_nonempty(s@, '\n');
    }
    let ghost p = text::split_on(s@, '\n');
    let n = pieces.len();
    let mut out: Vec<Vec<char>> = Vec::new();
    let mut i: usize = 0;
    while i + 1 < n
        invariant
            n == pieces@.len(),
            n == p.len(),
            n >= 1,
            i <= n - 1,
            p == text::split_on(s@, '\n'),
            forall|k: int| 0 <= k < n ==> #[trigger] pieces@[k]@ == p[k],
            out@.len() == i,
            forall|k: int| 0 <= k < i ==> #[trigger] out@[k]@ == strip_cr(p[k]),
        decreases n - i,
    {
        let piece = &pieces[i];
        let mut l: Vec<char> = Vec::new();
        let m = piece.len();
        if m > 0 && piece[m - 1] == '\r' {
            text::append_range(&mut l, piece.as_slice(), 0, m - 1);
            proof {
                assert(l@ =~= p[i as int].drop_last());
            }
        } else {
            text::append_all(&mut l, piece.as_slice());
        }
        out.push(l);
        i = i + 1;
    }
    let last = &pieces[n - 1];
    if last.len() > 0 {
        let mut l: Vec<char> = Vec::new();
        text::append_all(&mut l, last.as_slice());
        out.push(l);
    }
    proof {
        let ended = p.drop_last().map_values(|l: Seq<char>| strip_cr(l));
        assert(p.last() == p[n - 1]);
        if p.last().len() == 0 {
            assert forall|k: int| 0 <= k < out@.len() implies #[trigger] out@[k]@ == lines_of(s@)[k] by {
                assert(ended[k] == strip_cr(p[k]));
            }
        } else {
            assert forall|k: int| 0 <= k < out@.len() implies #[trigger] out@[k]@ == lines_of(s@)[k] by {
                if k < n - 1 {
                    assert(ended[k] == strip_cr(p[k]));
                    assert(ended.push(p.last())[k] == ended[k]);
                }
            }
        }
    }
    out
}

/// The name a name field stands for (see [`parse_name_field`]).
fn parse_name_field_chars(f: &[char]) -> (r: Option<Option<String>>)
    ensures
        match parse_name_field(f@) {
            None => r is None,
            Some(None) => r == Some(None::<String>),
            Some(Some(n)) => r matches Some(Some(x)) && x@ == n,
        },
{
    if f.len() == 1 && f[0] == '-' {
        proof {
            assert(f@ =~= seq!['-']);
        }
        return Some(None);
    }
    proof {
        if f@ == seq!['-'] {
            assert(f@.len() == 1 && f@[0] == '-');
        }
    }
    if f.len() > 0 && f[0] == 'n' {
        let mut rest: Vec<char> = Vec::new();
        text::append_range(&mut rest, f, 1, f.len());
        proof {
            assert(rest@ =~= f@.drop_first());
        }
        match unescape_chars(rest.as_slice()) {
            Some(n) => Some(Some(text::string_of(n.as_slice()))),
            None => None,
        }
    } else {
        None
    }
}

/// A record line read back (see [`parse_record`]).
fn parse_record_chars(line: &[char]) -> (r: Option<RestoredBuffer>)
    ensures
        match parse_record(line@) {
            None => r is None,
            Some(e) => r matches Some(x) && x@ == e,
        },
{
    let f = text::split_chars(line, '\t');
    if f.len() != 3 {
        return None;
    }
    let seq = match text::parse_unsigned_chars(f[0].as_slice(), u64::MAX) {
        Some(n) => n,
        None => {
            return None;
        },
    };
    let name = match parse_name_field_chars(f[1].as_slice()) {
        Some(n) => n,
        None => {
            return None;
        },
    };
    let text = match unescape_chars(f[2].as_slice()) {
        Some(t) => text::string_of(t.as_slice()),
        None => {
            return None;
        },
    };
    let r = RestoredBuffer { seq, name, text };
    proof {
        assert(r@.name == parse_name_field(f@[1]@)->0);
    }
    Some(r)
}

/// The records after the header (see [`records_of`]).
fn records_vec(ls: &Vec<Vec<char>>) -> (r: (Vec<RestoredBuffer>, usize))
    requires
        ls@.len() >= 1,
    ensures
        buffer::restored_views(r.0@) == records_of(ls@.map_values(|v: Vec<char>| v@).drop_first()).0,
        r.1 == records_of(ls@.map_values(|v: Vec<char>| v@).drop_first()).1,
{
    let ghost lv = ls@.map_values(|v: Vec<char>| v@).drop_first();
    let mut recs: Vec<RestoredBuffer> = Vec::new();
    let mut skipped: usize = 0;
    let mut i: usize = 1;
    proof {
        assert(lv.take(0) =~= Seq::<Seq<char>>::empty());
    }
    while i < ls.len()
        invariant
            1 <= i <= ls@.len(),
            lv == ls@.map_values(|v: Vec<char>| v@).drop_first(),
            buffer::restored_views(recs@) == records_of(lv.take(i - 1)).0,
            skipped == records_of(lv.take(i - 1)).1,
            skipped < i,
        decreases ls@.len() - i,
    {
        let line = &ls[i];
        proof {
            assert(lv.take(i as int).drop_last() =~= lv.take(i - 1));
            assert(lv.take(i as int).last() == line@);
        }
        if line.len() > 0 {
            match parse_record_chars(line.as_slice()) {
                Some(e) => {
                    if text::str_blank(e.text.as_str()) {
                        skipped = skipped + 1;
                    } else {
                        let ghost before = recs@;
                        recs.push(e);
                        proof {
                            assert(buffer::restored_views(recs@) =~= buffer::restored_views(before).push(e@));
                        }
                    }
                },
                None => {
                    skipped = skipped + 1;
                },
            }
        }
        i = i + 1;
    }
    proof {
        assert(lv.take(ls@.len() - 1) =~= lv);
    }
    (recs, skipped)
}

/// Newest-first records renumbered (see [`renumber`]).
fn renumber_vec(v: Vec<RestoredBuffer>) -> (r: Vec<RestoredBuffer>)
    ensures
        buffer::restored_views(r@) == renumber(buffer::restored_views(v@)),
{
    let ghost views = buffer::restored_views(v@);
    let n = v.len();
    let mut src = v;
    let mut rev: Vec<RestoredBuffer> = Vec::new();
    let ghost orig = src@;
    while src.len() > 0
        invariant
            src@ == orig.take(src@.len() as int),
            src@.len() <= orig.len(),
            n == orig.len(),
            views == buffer::restored_views(orig),
            rev@.len() == orig.len() - src@.len(),
            forall|j: int|
                0 <= j < rev@.len() ==> (#[trigger] rev@[j])@ == renumber(views)[n - 1 - j],
        decreases src@.len(),
    {
        let k = src.len() - 1;
        let e = src.pop().unwrap();
        proof {
            assert(e == orig[k as int]);
            assert(src@ =~= orig.take(k as int));
        }
        let number = (n - k) as u64;
        let x = RestoredBuffer { seq: number, name: e.name, text: e.text };
        let ghost before = rev@;
        rev.push(x);
        proof {
            assert(x@ == renumber(views)[k as int]);
            assert forall|j: int| 0 <= j < rev@.len() implies (#[trigger] rev@[j])@ == renumber(
                views,
            )[n - 1 - j] by {
                if j < before.len() {
                    assert(rev@[j] == before[j]);
                }
            }
        }
    }
    let out = buffer::reversed(rev);
    proof {
        assert(buffer::restored_views(out@) =~= renumber(views));
    }
    out
}

/// Decodes a persisted body and rebuilds the ring with the current
/// `limit` (never one read from the file).
///
/// Fails only when the body as a whole is not a ring file: empty or
/// whitespace only, a first line other than the `zclip-ring` header, or a
/// version other than `1`. A malformed record, or one with blank text, is
/// skipped and counted; empty lines are ignored.
pub fn decode(body: &str, limit: usize) -> (r: Result<Restored, DecodeError>)
    ensures
        match decode_of(body@) {
            Ok((entries, skipped)) => r matches Ok(res) && res.ring@ == buffer::restore_view(
                limit,
                entries,
            ) && res.skipped_records == skipped,
            Err(e) => r matches Err(d) && d@ == e,
        },
{
    let cs = text::chars_of(body);
    if text::chars_blank(cs.as_slice()) {
        return Err(DecodeError::Empty);
    }
    let ls = lines_vec(cs.as_slice());
    if ls.len() == 0 {
        return Err(DecodeError::MissingHeader);
    }
    let hf = text::split_chars(ls[0].as_slice(), '\t');
    proof {
        text::lemma_split_nonempty(ls@[0]@, '\t');
    }
    let magic = text::chars_of("zclip-ring");
    if !text::chars_eq(hf[0].as_slice(), magic.as_slice()) {
        return Err(DecodeError::MissingHeader);
    }
    let mut version: Vec<char> = Vec::new();
    if hf.len() > 1 {
        text::append_all(&mut version, hf[1].as_slice());
    }
    let one = text::chars_of("1");
    if !text::chars_eq(version.as_slice(), one.as_slice()) {
        return Err(DecodeError::UnsupportedVersion(text::string_of(version.as_slice())));
    }
    proof {
        assert(ls@.map_values(|v: Vec<char>| v@) =~= lines_of(body@));
    }
    let (recs, skipped) = records_vec(&ls);
    let sorted = buffer::sort_desc_vec(recs);
    let entries = renumber_vec(sorted);
    let ring = BufferRing::restore(limit, entries);
    Ok(Restored { ring, skipped_records: skipped })
}

// ---------------------------------------------------------------------
// Reading back what was written
// ---------------------------------------------------------------------

/// The buffers of `bs` whose flag is set, in order.
pub open spec fn kept(bs: Seq<BufferView>, f: Seq<bool>) -> Seq<BufferView>
    decreases bs.len(),
{
    if bs.len() == 0 {
        Seq::empty()
    } else {
        let p = kept(bs.drop_last(), f.drop_last());
        if f.last() {
            p.push(bs.last())
        } else {
            p
        }
    }
}

/// What a user sees of buffers: text and name, in order.
pub open spec fn contents(s: Seq<BufferView>) -> Seq<(Seq<char>, Option<Seq<char>>)> {
    s.map_values(|b: BufferView| (b.text, b.name))
}

/// A buffer as the record read back from its line.
pub open spec fn as_restored(b: BufferView) -> RestoredView {
    RestoredView { seq: b.seq, name: b.name, text: b.text }
}

/// The header line without its line feed.
pub open spec fn header_text() -> Seq<char> {
    "zclip-ring\t1"@
}

/// The lines of an encoded body: the header, then the admitted records.
pub open spec fn body_lines(bs: Seq<BufferView>, f: Seq<bool>) -> Seq<Seq<char>> {
    seq![header_text()] + kept(bs, f).map_values(|b: BufferView| record_line(b))
}

/// No line feed, carriage return or tab in `s`.
pub open spec fn plain(s: Seq<char>) -> bool {
    forall|i: int| 0 <= i < s.len() ==> #[trigger] s[i] != '\n' && s[i] != '\r' && s[i] != '\t'
}

proof fn lemma_digits_plain(s: Seq<char>)
    requires
        text::all_digits(s),
    ensures
        plain(s),
{
    assert forall|i: int| 0 <= i < s.len() implies #[trigger] s[i] != '\n' && s[i] != '\r' && s[i]
        != '\t' by {
        assert(text::is_digit(s[i]));
    }
}

proof fn lemma_name_field_plain(name: Option<Seq<char>>)
    ensures
        plain(name_field(name)),
{
    match name {
        None => {},
        Some(n) => {
            lemma_escape_plain(n);
            let f = name_field(name);
            assert forall|i: int| 0 <= i < f.len() implies #[trigger] f[i] != '\n' && f[i] != '\r'
                && f[i] != '\t' by {
                if i > 0 {
                    assert(f[i] == escape(n)[i - 1]);
                }
            }
        },
    }
}

/// A record line splits back into its three fields, and holds no line
/// feed or carriage return.
proof fn lemma_record_line_fields(b: BufferView)
    ensures
        text::split_on(record_line(b), '\t') == seq![
            text::decimal(b.seq as nat),
            name_field(b.name),
            escape(b.text),
        ],
        forall|i: int|
            0 <= i < record_line(b).len() ==> #[trigger] record_line(b)[i] != '\n' && record_line(
                b,
            )[i] != '\r',
        record_line(b).len() > 0,
{
    let d = text::decimal(b.seq as nat);
    let nf = name_field(b.name);
    let e = escape(b.text);
    text::lemma_decimal_digits(b.seq as nat);
    lemma_digits_plain(d);
    lemma_name_field_plain(b.name);
    lemma_escape_plain(b.text);
    let parts = seq![d, nf, e];
    assert(parts.drop_last() =~= seq![d, nf]);
    assert(seq![d, nf].drop_last() =~= seq![d]);
    assert(text::join_with(seq![d], seq!['\t']) == d);
    assert(text::join_with(seq![d, nf], seq!['\t']) == d + seq!['\t'] + nf);
    assert(text::join_with(parts, seq!['\t']) == d + seq!['\t'] + nf + seq!['\t'] + e);
    assert forall|i: int, k: int| 0 <= i < parts.len() && 0 <= k < parts[i].len() implies parts[i][k]
        != '\t' by {
        if i == 0 {
            assert(plain(d));
        } else if i == 1 {
            assert(plain(nf));
        } else {
            assert(parts[i] == e);
        }
    }
    text::lemma_split_join(parts, '\t');
    let l = record_line(b);
    assert forall|i: int| 0 <= i < l.len() implies #[trigger] l[i] != '\n' && l[i] != '\r' by {
        if i < d.len() {
            assert(l[i] == d[i]);
        } else if i == d.len() {
        } else if i < d.len() + 1 + nf.len() {
            assert(l[i] == nf[i - d.len() - 1]);
        } else if i == d.len() + 1 + nf.len() {
        } else {
            assert(l[i] == e[i - d.len() - 2 - nf.len()]);
        }
    }
}

/// A record line reads back as the buffer it was written from.
proof fn lemma_parse_record_line(b: BufferView)
    ensures
        parse_record(record_line(b)) == Some(as_restored(b)),
{
    lemma_record_line_fields(b);
    let f = text::split_on(record_line(b), '\t');
    assert(f[0] == text::decimal(b.seq as nat));
    assert(f[1] == name_field(b.name));
    assert(f[2] == escape(b.text));
    text::law_parse_decimal(b.seq as nat, u64::MAX as nat);
    law_unescape_escape(b.text);
    match b.name {
        None => {},
        Some(n) => {
            law_unescape_escape(n);
            let nf = name_field(b.name);
            assert(nf[0] == 'n');
            assert(nf != seq!['-']);
            assert(nf.drop_first() =~= escape(n));
        },
    }
}

/// An encoded body is its lines joined by line feeds, with a final line
/// feed.
proof fn lemma_body_join(bs: Seq<BufferView>, f: Seq<bool>)
    requires
        f.len() == bs.len(),
    ensures
        header_line() + admitted_lines(bs, f) == text::join_with(
            body_lines(bs, f).push(Seq::empty()),
            seq!['\n'],
        ),
    decreases bs.len(),
{
    reveal_strlit("zclip-ring\t1\n");
    reveal_strlit("zclip-ring\t1");
    let parts = body_lines(bs, f);
    text::lemma_join_push(parts, Seq::empty(), seq!['\n']);
    if bs.len() == 0 {
        assert(kept(bs, f).map_values(|b: BufferView| record_line(b)) =~= Seq::<Seq<char>>::empty());
        assert(parts =~= seq![header_text()]);
        assert(admitted_lines(bs, f) =~= Seq::<char>::empty());
        assert(header_line() =~= header_text() + seq!['\n'] + Seq::<char>::empty());
        assert(header_line() + admitted_lines(bs, f) =~= header_line());
    } else {
        let bi = bs.drop_last();
        let fi = f.drop_last();
        lemma_body_join(bi, fi);
        let pi = body_lines(bi, fi);
        text::lemma_join_push(pi, Seq::empty(), seq!['\n']);
        if f.last() {
            let rl = record_line(bs.last());
            assert(kept(bs, f).map_values(|b: BufferView| record_line(b)) =~= kept(bi, fi).map_values(
                |b: BufferView| record_line(b),
            ).push(rl));
            assert(parts =~= pi.push(rl));
            text::lemma_join_push(pi, rl, seq!['\n']);
            assert(header_line() + admitted_lines(bs, f) =~= (header_line() + admitted_lines(bi, fi))
                + rl.push('\n'));
            assert(text::join_with(parts, seq!['\n']) + seq!['\n'] + Seq::<char>::empty() =~= (
            text::join_with(pi, seq!['\n']) + seq!['\n'] + Seq::<char>::empty()) + rl.push('\n'));
        } else {
            assert(parts =~= pi);
            assert(admitted_lines(bs, f) =~= admitted_lines(bi, fi) + Seq::<char>::empty());
            assert(header_line() + admitted_lines(bs, f) =~= header_line() + admitted_lines(bi, fi));
        }
    }
}

/// The lines of an encoded body are exactly its header and records.
proof fn lemma_body_lines(bs: Seq<BufferView>, f: Seq<bool>)
    requires
        f.len() == bs.len(),
    ensures
        lines_of(header_line() + admitted_lines(bs, f)) == body_lines(bs, f),
{
    reveal_strlit("zclip-ring\t1");
    lemma_body_join(bs, f);
    let parts = body_lines(bs, f);
    let k = kept(bs, f);
    let all = parts.push(Seq::empty());
    assert forall|i: int| 0 <= i < parts.len() implies forall|j: int|
        0 <= j < (#[trigger] parts[i]).len() ==> parts[i][j] != '\n' && parts[i][j] != '\r' by {
        if i > 0 {
            assert(parts[i] == record_line(k[i - 1]));
            lemma_record_line_fields(k[i - 1]);
        } else {
            assert(parts[i] == header_text());
        }
    }
    assert forall|i: int, j: int| 0 <= i < all.len() && 0 <= j < all[i].len() implies all[i][j] != '\n' by {
        assert(all[i] == parts[i]);
    }
    text::lemma_split_join(all, '\n');
    let body = header_line() + admitted_lines(bs, f);
    let p = text::split_on(body, '\n');
    assert(p.drop_last() =~= parts);
    assert(p.last().len() == 0);
    let ended = p.drop_last().map_values(|l: Seq<char>| strip_cr(l));
    assert forall|i: int| 0 <= i < parts.len() implies #[trigger] ended[i] == parts[i] by {
        if parts[i].len() > 0 {
            assert(parts[i][parts[i].len() - 1] != '\r');
        }
    }
    assert(ended =~= parts);
}

/// Records read back from the admitted record lines.
proof fn lemma_records_of_kept(k: Seq<BufferView>)
    requires
        forall|i: int| 0 <= i < k.len() ==> !text::is_blank((#[trigger] k[i]).text),
    ensures
        records_of(k.map_values(|b: BufferView| record_line(b))) == (
            k.map_values(|b: BufferView| as_restored(b)),
            0nat,
        ),
    decreases k.len(),
{
    let ls = k.map_values(|b: BufferView| record_line(b));
    if k.len() > 0 {
        let ki = k.drop_last();
        assert forall|i: int| 0 <= i < ki.len() implies !text::is_blank((#[trigger] ki[i]).text) by {
            assert(ki[i] == k[i]);
        }
        lemma_records_of_kept(ki);
        assert(ls.drop_last() =~= ki.map_values(|b: BufferView| record_line(b)));
        assert(ls.last() == record_line(k.last()));
        lemma_record_line_fields(k.last());
        lemma_parse_record_line(k.last());
        assert(!text::is_blank(k[k.len() - 1].text));
        assert(k.map_values(|b: BufferView| as_restored(b)) =~= ki.map_values(
            |b: BufferView| as_restored(b),
        ).push(as_restored(k.last())));
    } else {
        assert(ls =~= Seq::<Seq<char>>::empty());
        assert(k.map_values(|b: BufferView| as_restored(b)) =~= Seq::<RestoredView>::empty());
    }
}

/// The kept buffers keep the ring's invariants, and all of them are kept
/// when no flag is unset.
proof fn lemma_kept(bs: Seq<BufferView>, f: Seq<bool>, next: nat)
    requires
        f.len() == bs.len(),
        buffer::buffers_ok(bs, next),
    ensures
        buffer::buffers_ok(kept(bs, f), next),
        forall|i: int| 0 <= i < kept(bs, f).len() ==> bs.contains(#[trigger] kept(bs, f)[i]),
        count_false(f) == 0 ==> kept(bs, f) == bs,
    decreases bs.len(),
{
    if bs.len() > 0 {
        let bi = bs.drop_last();
        let fi = f.drop_last();
        assert(buffer::buffers_ok(bi, next));
        lemma_kept(bi, fi, next);
        let p = kept(bi, fi);
        let r = kept(bs, f);
        assert forall|i: int| 0 <= i < r.len() implies bs.contains(#[trigger] r[i]) by {
            if i < p.len() {
                assert(bi.contains(p[i]));
                let j = choose|j: int| 0 <= j < bi.len() && bi[j] == p[i];
                assert(bs[j] == p[i]);
            } else {
                assert(bs[bs.len() - 1] == bs.last());
            }
        }
        if f.last() {
            assert forall|i: int| 0 <= i < p.len() implies #[trigger] p[i].seq > bs.last().seq && (
            p[i].name is Some ==> p[i].name != bs.last().name) by {
                assert(bi.contains(p[i]));
                let j = choose|j: int| 0 <= j < bi.len() && bi[j] == p[i];
                assert(bs[j] == p[i]);
                assert(bs[bs.len() - 1] == bs.last());
            }
            assert forall|i: int, j: int| 0 <= i < j < r.len() implies #[trigger] r[i].seq
                > #[trigger] r[j].seq by {
                assert(r[i] == p[i]);
                if j < r.len() - 1 {
                    assert(r[j] == p[j]);
                }
            }
            assert forall|i: int, j: int| 0 <= i < j < r.len() && r[i].name is Some implies #[trigger] r[i].name
                != #[trigger] r[j].name by {
                assert(r[i] == p[i]);
                if j < r.len() - 1 {
                    assert(r[j] == p[j]);
                }
            }
            assert forall|i: int| 0 <= i < r.len() implies (#[trigger] r[i]).id == r[i].seq
                && r[i].seq < next && !text::is_blank(r[i].text) by {
                if i < p.len() {
                    assert(r[i] == p[i]);
                } else {
                    assert(bs[bs.len() - 1] == bs.last());
                }
            }
        }
        if count_false(f) == 0 {
            assert(bi.push(bs.last()) =~= bs);
        }
    }
}

proof fn lemma_desc_len(s: Seq<BufferView>, next: nat)
    requires
        buffer::seq_desc(s),
        forall|i: int| 0 <= i < s.len() ==> (#[trigger] s[i]).seq < next,
    ensures
        s.len() <= next,
    decreases s.len(),
{
    if s.len() > 1 {
        let t = s.drop_first();
        assert forall|i: int| 0 <= i < t.len() implies (#[trigger] t[i]).seq < s[0].seq by {
            assert(t[i] == s[i + 1]);
        }
        assert forall|i: int, j: int| 0 <= i < j < t.len() implies #[trigger] t[i].seq
            > #[trigger] t[j].seq by {
            assert(t[i] == s[i + 1] && t[j] == s[j + 1]);
        }
        lemma_desc_len(t, s[0].seq as nat);
    }
}

proof fn lemma_header_fields()
    ensures
        text::split_on(header_text(), '\t') == seq!["zclip-ring"@, "1"@],
        header_text()[0] == 'z',
{
    reveal_strlit("zclip-ring\t1");
    reveal_strlit("zclip-ring");
    reveal_strlit("1");
    let parts = seq!["zclip-ring"@, "1"@];
    assert(parts.drop_last() =~= seq!["zclip-ring"@]);
    assert(text::join_with(seq!["zclip-ring"@], seq!['\t']) == "zclip-ring"@);
    assert(text::join_with(parts, seq!['\t']) == "zclip-ring"@ + seq!['\t'] + "1"@);
    assert(text::join_with(parts, seq!['\t']) =~= header_text());
    assert forall|i: int, k: int| 0 <= i < parts.len() && 0 <= k < parts[i].len() implies parts[i][k]
        != '\t' by {
        if i == 0 {
            assert(parts[i] == "zclip-ring"@);
        } else {
            assert(parts[i] == "1"@);
        }
    }
    text::lemma_split_join(parts, '\t');
}

/// Decoding what [`encode`] wrote gives back the written buffers, with
/// their texts, names and order, and skips nothing, as long as the limit
/// read with holds their unnamed ones. When every buffer fit the budgets
/// (nothing was skipped), that is the whole ring.
pub proof fn law_round_trip(r: buffer::RingView, limit: usize)
    requires
        buffer::ring_ok(r),
        buffer::count_unnamed(kept(r.buffers, admitted(r.buffers))) <= buffer::clamp_limit(limit),
    ensures
        decode_of(encoded_body(r.buffers)) matches Ok((entries, skipped)) && skipped == 0
            && contents(buffer::restore_view(limit, entries).buffers) == contents(
            kept(r.buffers, admitted(r.buffers)),
        ),
        count_false(admitted(r.buffers)) == 0 ==> kept(r.buffers, admitted(r.buffers)) == r.buffers,
{
    let bs = r.buffers;
    let c = candidates(bs);
    let none = Seq::new(c.len(), |i: int| false);
    lemma_header_bytes();
    lemma_admit_pass(c, true, 13, none);
    let first = admit_pass(c, true, 13, none);
    assert forall|i: int| 0 <= i < c.len() && #[trigger] first.0[i] implies c[i].named != false by {
        assert(!none[i]);
    }
    lemma_admit_pass(c, false, first.1, first.0);
    let a = admitted(bs);
    assert(a.len() == bs.len());
    let k = kept(bs, a);
    lemma_kept(bs, a, r.next_id);
    let body = encoded_body(bs);
    lemma_body_lines(bs, a);
    let ls = lines_of(body);
    assert(ls == body_lines(bs, a));
    lemma_header_fields();
    assert(ls[0] == header_text());
    assert(!text::is_blank(body)) by {
        assert(body[0] == header_line()[0]);
        reveal_strlit("zclip-ring\t1\n");
        assert(body[0] == 'z');
    }
    assert(ls.drop_first() =~= k.map_values(|b: BufferView| record_line(b)));
    lemma_records_of_kept(k);
    let recs = k.map_values(|b: BufferView| as_restored(b));
    assert(buffer::restored_desc(recs)) by {
        assert forall|i: int, j: int| 0 <= i < j < recs.len() implies #[trigger] recs[i].seq
            > #[trigger] recs[j].seq by {
            assert(recs[i].seq == k[i].seq && recs[j].seq == k[j].seq);
        }
    }
    buffer::lemma_sort_desc_sorted(recs);
    let entries = renumber(recs);
    lemma_desc_len(k, r.next_id);
    assert(buffer::all_nonblank(entries)) by {
        assert forall|i: int| 0 <= i < entries.len() implies !text::is_blank(
            (#[trigger] entries[i]).text,
        ) by {
            assert(entries[i].text == k[i].text);
        }
    }
    buffer::lemma_drop_blank_none(entries);
    assert(buffer::restored_desc(entries)) by {
        assert forall|i: int, j: int| 0 <= i < j < entries.len() implies #[trigger] entries[i].seq
            > #[trigger] entries[j].seq by {
            assert(entries[i].seq == entries.len() - i);
            assert(entries[j].seq == entries.len() - j);
        }
    }
    buffer::lemma_sort_desc_sorted(entries);
    assert(buffer::restored_names_unique(entries)) by {
        assert forall|i: int, j: int| 0 <= i < j < entries.len() && entries[i].name is Some implies #[trigger] entries[i].name
            != #[trigger] entries[j].name by {
            assert(entries[i].name == k[i].name && entries[j].name == k[j].name);
        }
    }
    buffer::lemma_dedup_names_unique(entries);
    let nb = buffer::numbered(entries);
    buffer::lemma_count_unnamed_same_names(nb, k);
    buffer::lemma_keep_recent(nb, buffer::clamp_limit(limit));
    assert(contents(nb) =~= contents(k));
}

/// The ring file a server process writes is recognised as a ring file,
/// and a plugin instance's temporary file never is.
pub proof fn law_ring_file_names_recognised(pid: u32, id: u32)
    ensures
        ring_file_shape(ring_file_name_of(pid)),
        !ring_file_shape(temp_file_name_of(id)),
{
    reveal_strlit("ring-");
    reveal_strlit(".zclip");
    reveal_strlit(".tmp");
    let d = text::decimal(pid as nat);
    text::lemma_decimal_digits(pid as nat);
    let s = ring_file_name_of(pid);
    assert(s.take(5) =~= "ring-"@);
    assert(s.skip(5) =~= d + ".zclip"@);
    let r = s.skip(5);
    assert(r.skip(r.len() - 6) =~= ".zclip"@);
    assert(r.take(r.len() - 6) =~= d);
    let e = text::decimal(id as nat);
    text::lemma_decimal_digits(id as nat);
    let t = temp_file_name_of(id);
    let u = t.skip(5);
    assert(u =~= e + ".tmp"@);
    if u.len() >= 6 {
        let tail = u.skip(u.len() - 6);
        assert(tail[2] == u[u.len() - 4]);
        assert(u[u.len() - 4] == '.');
        assert(".zclip"@[2] == 'c');
    }
}

} // verus!
