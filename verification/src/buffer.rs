//! The paste-buffer ring, modelled on tmux's paste-buffer stack.
//!
//! The most recent buffer sits at the front (index `0`). The ring's limit
//! bounds **unnamed** buffers only: named buffers are pinned, never count
//! toward the limit and are never evicted automatically. A name belongs to
//! at most one buffer. Every buffer gets a fresh id and creation number
//! (`seq`) that are never reused, and `seq` strictly decreases from front
//! to back.

use std::collections::VecDeque;
use vstd::prelude::*;
use crate::text;

verus! {

broadcast use vstd::std_specs::vecdeque::group_vec_dequeue_axioms;

/// tmux's default `buffer-limit`.
pub const DEFAULT_BUFFER_LIMIT: usize = 50;

/// An opaque, stable identity for a [`PasteBuffer`], assigned once and
/// never reused.
#[derive(Debug, Clone, Copy, PartialEq, Eq, Structural, Hash, PartialOrd, Ord)]
pub struct BufferId(u64);

impl View for BufferId {
    type V = u64;

    closed spec fn view(&self) -> u64 {
        self.0
    }
}

impl BufferId {
    /// The id's number, for display.
    pub fn number(self) -> (n: u64)
        ensures
            n == self@,
    {
        self.0
    }
}

/// The mathematical content of a [`PasteBuffer`].
pub struct BufferView {
    /// The buffer's identity.
    pub id: u64,
    /// The captured text.
    pub text: Seq<char>,
    /// The buffer's name, if it is pinned.
    pub name: Option<Seq<char>>,
    /// Creation order: higher is newer.
    pub seq: u64,
}

/// The character view of an optional string.
pub open spec fn opt_view(o: Option<String>) -> Option<Seq<char>> {
    match o {
        Some(s) => Some(s@),
        None => None,
    }
}

/// A single captured paste buffer.
#[derive(Debug, PartialEq, Eq)]
pub struct PasteBuffer {
    id: BufferId,
    text: String,
    name: Option<String>,
    seq: u64,
}

impl View for PasteBuffer {
    type V = BufferView;

    closed spec fn view(&self) -> BufferView {
        BufferView { id: self.id@, text: self.text@, name: opt_view(self.name), seq: self.seq }
    }
}

/// The number of occurrences of `c` in `s`.
pub open spec fn count_char(s: Seq<char>, c: char) -> nat
    decreases s.len(),
{
    if s.len() == 0 {
        0
    } else {
        count_char(s.drop_last(), c) + if s.last() == c {
            1nat
        } else {
            0nat
        }
    }
}

pub proof fn lemma_count_char_le(s: Seq<char>, c: char)
    ensures
        count_char(s, c) <= s.len(),
    decreases s.len(),
{
    if s.len() > 0 {
        lemma_count_char_le(s.drop_last(), c);
    }
}

/// Lines of `t` as an editor counts them: none for empty text, and a
/// trailing newline does not start a line of its own.
pub open spec fn line_count_of(t: Seq<char>) -> nat {
    if t.len() == 0 {
        0
    } else if t.last() == '\n' {
        count_char(t, '\n')
    } else {
        count_char(t, '\n') + 1
    }
}

/// `t` with every whitespace character replaced by a space and each run of
/// them reduced to one.
pub open spec fn collapse_ws(t: Seq<char>) -> Seq<char>
    decreases t.len(),
{
    if t.len() == 0 {
        Seq::empty()
    } else {
        let p = collapse_ws(t.drop_last());
        if text::is_ws(t.last()) {
            if t.len() >= 2 && text::is_ws(t[t.len() - 2]) {
                p
            } else {
                p.push(' ')
            }
        } else {
            p.push(t.last())
        }
    }
}

/// The one-line preview of `t` at most `max` characters long: whitespace
/// runs collapsed and the result trimmed; if still longer than `max`, its
/// first `max - 1` characters followed by `…`.
pub open spec fn preview_of(t: Seq<char>, max: nat) -> Seq<char> {
    let c = text::trim(collapse_ws(t));
    if max == 0 {
        Seq::empty()
    } else if c.len() <= max {
        c
    } else {
        c.take(max - 1).push('…')
    }
}

impl Clone for PasteBuffer {
    fn clone(&self) -> (b: Self)
        ensures
            b@ == self@,
    {
        let name = match &self.name {
            Some(n) => Some(n.clone()),
            None => None,
        };
        PasteBuffer { id: self.id, text: self.text.clone(), name, seq: self.seq }
    }
}

impl PasteBuffer {
    /// This buffer's stable identity.
    pub fn id(&self) -> (i: BufferId)
        ensures
            i@ == self@.id,
    {
        self.id
    }

    /// The buffer's full text, exactly as captured.
    pub fn text(&self) -> (t: &str)
        ensures
            t@ == self@.text,
    {
        self.text.as_str()
    }

    /// The buffer's name, if any.
    pub fn name(&self) -> (n: Option<&str>)
        ensures
            match self@.name {
                Some(x) => n matches Some(s) && s@ == x,
                None => n is None,
            },
    {
        match &self.name {
            Some(s) => Some(s.as_str()),
            None => None,
        }
    }

    /// The creation order of this buffer (lower is older).
    pub fn seq(&self) -> (s: u64)
        ensures
            s == self@.seq,
    {
        self.seq
    }

    /// Whether this buffer has a name, i.e. is pinned against eviction.
    pub fn is_named(&self) -> (b: bool)
        ensures
            b == self@.name is Some,
    {
        self.name.is_some()
    }

    /// The number of lines of the text; a trailing newline does not add
    /// an empty line.
    pub fn line_count(&self) -> (n: usize)
        ensures
            n == line_count_of(self@.text),
    {
        let cs = text::chars_of(self.text.as_str());
        if cs.len() == 0 {
            return 0;
        }
        let mut count: usize = 0;
        let mut i: usize = 0;
        while i < cs.len()
            invariant
                i <= cs@.len(),
                count == count_char(cs@.take(i as int), '\n'),
                count <= i,
            decreases cs@.len() - i,
        {
            proof {
                assert(cs@.take(i + 1).drop_last() =~= cs@.take(i as int));
            }
            if cs[i] == '\n' {
                count = count + 1;
            }
            i = i + 1;
        }
        proof {
            assert(cs@.take(cs@.len() as int) =~= cs@);
        }
        if cs[cs.len() - 1] == '\n' {
            count
        } else {
            proof {
                lemma_count_char_le(cs@.drop_last(), '\n');
            }
            count + 1
        }
    }

    /// A single-line preview for a list: whitespace runs collapsed to one
    /// space, trimmed, and cut to `max_chars` characters (ending in `…`)
    /// when longer; never splits a character.
    pub fn preview(&self, max_chars: usize) -> (p: String)
        ensures
            p@ == preview_of(self@.text, max_chars as nat),
    {
        let cs = text::chars_of(self.text.as_str());
        let mut collapsed: Vec<char> = Vec::new();
        let mut last_was_space = false;
        let mut i: usize = 0;
        while i < cs.len()
            invariant
                i <= cs@.len(),
                collapsed@ == collapse_ws(cs@.take(i as int)),
                last_was_space == (i > 0 && text::is_ws(cs@[i - 1])),
            decreases cs@.len() - i,
        {
            let ch = cs[i];
            proof {
                assert(cs@.take(i + 1).drop_last() =~= cs@.take(i as int));
                assert(cs@.take(i + 1).last() == ch);
                if i > 0 {
                    assert(cs@.take(i + 1)[i - 1] == cs@[i - 1]);
                }
            }
            if text::is_whitespace_char(ch) {
                if !last_was_space {
                    collapsed.push(' ');
                }
                last_was_space = true;
            } else {
                collapsed.push(ch);
                last_was_space = false;
            }
            i = i + 1;
        }
        proof {
            assert(cs@.take(cs@.len() as int) =~= cs@);
        }
        let trimmed = text::trim_chars(collapsed.as_slice());
        if max_chars == 0 {
            return String::new();
        }
        if trimmed.len() <= max_chars {
            return text::string_of(trimmed.as_slice());
        }
        let mut out: Vec<char> = Vec::new();
        text::append_range(&mut out, trimmed.as_slice(), 0, max_chars - 1);
        out.push('…');
        proof {
            assert(out@ =~= trimmed@.take(max_chars - 1).push('…'));
        }
        text::string_of(out.as_slice())
    }
}

/// Values that can become a buffer's text or name (`&str` or `String`).
pub trait IntoText: Sized {
    /// The characters the value stands for.
    spec fn text_view(&self) -> Seq<char>;

    /// Converts into an owned `String` holding the same characters.
    fn into_text(self) -> (s: String)
        ensures
            s@ == self.text_view(),
    ;
}

impl<'a> IntoText for &'a str {
    open spec fn text_view(&self) -> Seq<char> {
        (*self)@
    }

    fn into_text(self) -> (s: String) {
        self.to_owned()
    }
}

impl IntoText for String {
    open spec fn text_view(&self) -> Seq<char> {
        self@
    }

    fn into_text(self) -> (s: String) {
        self
    }
}

/// The views of a sequence of buffers.
pub open spec fn buffer_views(v: Seq<PasteBuffer>) -> Seq<BufferView> {
    v.map_values(|b: PasteBuffer| b@)
}

/// The number of unnamed buffers in `s`.
pub open spec fn count_unnamed(s: Seq<BufferView>) -> nat
    decreases s.len(),
{
    if s.len() == 0 {
        0
    } else {
        count_unnamed(s.drop_last()) + if s.last().name is None {
            1nat
        } else {
            0nat
        }
    }
}

/// Eviction: every named buffer stays, and an unnamed one stays exactly
/// when fewer than `k` unnamed buffers are more recent than it.
pub open spec fn keep_recent(s: Seq<BufferView>, k: nat) -> Seq<BufferView>
    decreases s.len(),
{
    if s.len() == 0 {
        Seq::empty()
    } else {
        let p = keep_recent(s.drop_last(), k);
        if s.last().name is Some || count_unnamed(s.drop_last()) < k {
            p.push(s.last())
        } else {
            p
        }
    }
}

/// Creation numbers strictly decrease from front to back.
pub open spec fn seq_desc(s: Seq<BufferView>) -> bool {
    forall|i: int, j: int| 0 <= i < j < s.len() ==> #[trigger] s[i].seq > #[trigger] s[j].seq
}

/// No name is held by two buffers.
pub open spec fn names_unique(s: Seq<BufferView>) -> bool {
    forall|i: int, j: int|
        0 <= i < j < s.len() && s[i].name is Some ==> #[trigger] s[i].name != #[trigger] s[j].name
}

/// Per-buffer facts: id equals creation number, both below `next`, and the
/// text is not blank.
pub open spec fn each_ok(s: Seq<BufferView>, next: nat) -> bool {
    forall|i: int|
        0 <= i < s.len() ==> (#[trigger] s[i]).id == s[i].seq && s[i].seq < next && !text::is_blank(
            s[i].text,
        )
}

/// The invariants of a ring's buffer sequence.
pub open spec fn buffers_ok(s: Seq<BufferView>, next: nat) -> bool {
    &&& seq_desc(s)
    &&& names_unique(s)
    &&& each_ok(s, next)
}

/// The mathematical content of a [`BufferRing`].
pub struct RingView {
    /// The buffers, most recent first.
    pub buffers: Seq<BufferView>,
    /// The bound on unnamed buffers.
    pub limit: nat,
    /// The id (and creation number) the next buffer will get.
    pub next_id: nat,
}

/// Everything a ring keeps true.
pub open spec fn ring_ok(r: RingView) -> bool {
    &&& r.limit >= 1
    &&& count_unnamed(r.buffers) <= r.limit
    &&& buffers_ok(r.buffers, r.next_id)
    &&& r.next_id <= u64::MAX
}

/// `limit`, clamped to at least `1`.
pub open spec fn clamp_limit(limit: usize) -> nat {
    if limit == 0 {
        1
    } else {
        limit as nat
    }
}

/// A new unnamed or named buffer with id and creation number `n`.
pub open spec fn fresh(n: nat, t: Seq<char>, name: Option<Seq<char>>) -> BufferView {
    BufferView { id: n as u64, text: t, name, seq: n as u64 }
}

/// The tmux-style ring of paste buffers, most recent first.
#[derive(Debug)]
pub struct BufferRing {
    buffers: VecDeque<PasteBuffer>,
    limit: usize,
    next_id: u64,
    next_seq: u64,
}

impl View for BufferRing {
    type V = RingView;

    closed spec fn view(&self) -> RingView {
        RingView {
            buffers: buffer_views(self.buffers@),
            limit: self.limit as nat,
            next_id: self.next_id as nat,
        }
    }
}

// ---------------------------------------------------------------------
// Lemmas about eviction and the buffer invariants
// ---------------------------------------------------------------------

pub proof fn lemma_count_unnamed_le(s: Seq<BufferView>)
    ensures
        count_unnamed(s) <= s.len(),
    decreases s.len(),
{
    if s.len() > 0 {
        lemma_count_unnamed_le(s.drop_last());
    }
}

/// What eviction keeps: a sequence whose members all come from `s`, that
/// holds every named member of `s`, at most `k` unnamed ones, and all of
/// `s` when `s` already has at most `k` unnamed buffers.
pub proof fn lemma_keep_recent(s: Seq<BufferView>, k: nat)
    ensures
        count_unnamed(keep_recent(s, k)) == (if count_unnamed(s) <= k {
            count_unnamed(s)
        } else {
            k
        }),
        keep_recent(s, k).len() <= s.len(),
        forall|i: int| 0 <= i < keep_recent(s, k).len() ==> s.contains(#[trigger] keep_recent(s, k)[i]),
        forall|i: int| 0 <= i < s.len() && (#[trigger] s[i]).name is Some ==> keep_recent(s, k).contains(s[i]),
        count_unnamed(s) <= k ==> keep_recent(s, k) == s,
    decreases s.len(),
{
    if s.len() > 0 {
        let init = s.drop_last();
        lemma_keep_recent(init, k);
        let p = keep_recent(init, k);
        assert(p.push(s.last()).drop_last() =~= p);
        assert forall|i: int| 0 <= i < keep_recent(s, k).len() implies s.contains(
            #[trigger] keep_recent(s, k)[i],
        ) by {
            if i < p.len() {
                assert(init.contains(p[i]));
                let j = choose|j: int| 0 <= j < init.len() && init[j] == p[i];
                assert(s[j] == p[i]);
            } else {
                assert(s[s.len() - 1] == s.last());
            }
        }
        assert forall|i: int| 0 <= i < s.len() && (#[trigger] s[i]).name is Some implies keep_recent(
            s,
            k,
        ).contains(s[i]) by {
            if i < s.len() - 1 {
                assert(init[i] == s[i]);
                assert(p.contains(init[i]));
                let j = choose|j: int| 0 <= j < p.len() && p[j] == init[i];
                assert(keep_recent(s, k)[j] == p[j]);
            } else {
                assert(keep_recent(s, k)[p.len() as int] == s.last());
            }
        }
        if count_unnamed(s) <= k {
            assert(count_unnamed(init) <= k);
            assert(init.push(s.last()) =~= s);
        }
    }
}

/// Eviction keeps the buffer invariants.
pub proof fn lemma_keep_recent_ok(s: Seq<BufferView>, k: nat, next: nat)
    requires
        buffers_ok(s, next),
    ensures
        buffers_ok(keep_recent(s, k), next),
    decreases s.len(),
{
    if s.len() > 0 {
        let init = s.drop_last();
        assert(buffers_ok(init, next));
        lemma_keep_recent_ok(init, k, next);
        lemma_keep_recent(init, k);
        let p = keep_recent(init, k);
        let r = keep_recent(s, k);
        if r.len() > p.len() {
            assert forall|i: int| 0 <= i < p.len() implies #[trigger] p[i].seq > s.last().seq && (
            p[i].name is Some ==> p[i].name != s.last().name) by {
                assert(init.contains(p[i]));
                let j = choose|j: int| 0 <= j < init.len() && init[j] == p[i];
                assert(s[j] == p[i]);
                assert(s[s.len() - 1] == s.last());
            }
            assert forall|i: int, j: int| 0 <= i < j < r.len() implies #[trigger] r[i].seq
                > #[trigger] r[j].seq by {
                if j == r.len() - 1 {
                    assert(r[i] == p[i]);
                } else {
                    assert(r[i] == p[i] && r[j] == p[j]);
                }
            }
            assert forall|i: int, j: int| 0 <= i < j < r.len() && r[i].name is Some implies #[trigger] r[i].name
                != #[trigger] r[j].name by {
                if j == r.len() - 1 {
                    assert(r[i] == p[i]);
                } else {
                    assert(r[i] == p[i] && r[j] == p[j]);
                }
            }
            assert forall|i: int| 0 <= i < r.len() implies (#[trigger] r[i]).id == r[i].seq
                && r[i].seq < next && !text::is_blank(r[i].text) by {
                if i < p.len() {
                    assert(r[i] == p[i]);
                } else {
                    assert(s[s.len() - 1] == s.last());
                }
            }
        }
    }
}

/// Putting a buffer newer than all others, with a name nobody else holds,
/// in front keeps the invariants.
pub proof fn lemma_push_front_ok(s: Seq<BufferView>, b: BufferView, next: nat)
    requires
        buffers_ok(s, next),
        b.id == b.seq,
        b.seq == next,
        !text::is_blank(b.text),
        b.name is Some ==> forall|i: int| 0 <= i < s.len() ==> #[trigger] s[i].name != b.name,
    ensures
        buffers_ok(seq![b] + s, next + 1),
{
    let r = seq![b] + s;
    assert forall|i: int, j: int| 0 <= i < j < r.len() implies #[trigger] r[i].seq > #[trigger] r[j].seq by {
        if i == 0 {
            assert(r[j] == s[j - 1]);
        } else {
            assert(r[i] == s[i - 1] && r[j] == s[j - 1]);
        }
    }
    assert forall|i: int, j: int| 0 <= i < j < r.len() && r[i].name is Some implies #[trigger] r[i].name
        != #[trigger] r[j].name by {
        if i == 0 {
            assert(r[j] == s[j - 1]);
        } else {
            assert(r[i] == s[i - 1] && r[j] == s[j - 1]);
        }
    }
    assert forall|i: int| 0 <= i < r.len() implies (#[trigger] r[i]).id == r[i].seq && r[i].seq
        < next + 1 && !text::is_blank(r[i].text) by {
        if i > 0 {
            assert(r[i] == s[i - 1]);
        }
    }
}

// ---------------------------------------------------------------------
// Moving buffers around without copying them
// ---------------------------------------------------------------------

/// `v` reversed, moving every element.
pub(crate) fn reversed<T>(v: Vec<T>) -> (r: Vec<T>)
    ensures
        r@ == v@.reverse(),
{
    let mut src = v;
    let ghost orig = src@;
    let mut out: Vec<T> = Vec::new();
    while src.len() > 0
        invariant
            src@ == orig.take(src@.len() as int),
            src@.len() <= orig.len(),
            out@ == orig.skip(src@.len() as int).reverse(),
        decreases src@.len(),
    {
        let ghost n = src@.len();
        let x = src.pop().unwrap();
        out.push(x);
        proof {
            assert(src@ =~= orig.take(n - 1));
            assert(orig.skip(n - 1).reverse() =~= orig.skip(n as int).reverse().push(x));
        }
    }
    proof {
        assert(orig.skip(0) =~= orig);
    }
    out
}

/// Eviction on owned buffers; see [`keep_recent`].
fn keep_recent_vec(v: Vec<PasteBuffer>, k: usize) -> (r: Vec<PasteBuffer>)
    ensures
        buffer_views(r@) == keep_recent(buffer_views(v@), k as nat),
{
    let ghost orig = v@;
    let ghost views = buffer_views(v@);
    let mut rev = reversed(v);
    let n = rev.len();
    let mut out: Vec<PasteBuffer> = Vec::new();
    let mut unnamed: usize = 0;
    let ghost mut i: int = 0;
    proof {
        assert(views.take(0) =~= Seq::<BufferView>::empty());
        assert(orig.skip(0) =~= orig);
    }
    while rev.len() > 0
        invariant
            0 <= i <= orig.len(),
            orig.len() == n,
            rev@.len() == orig.len() - i,
            rev@ == orig.skip(i).reverse(),
            views == buffer_views(orig),
            buffer_views(out@) == keep_recent(views.take(i), k as nat),
            unnamed == count_unnamed(views.take(i)),
            unnamed <= i,
        decreases rev@.len(),
    {
        let b = rev.pop().unwrap();
        proof {
            assert(b == orig[i]);
            assert(views.take(i + 1).drop_last() =~= views.take(i));
            assert(views.take(i + 1).last() == b@);
            assert(rev@ =~= orig.skip(i + 1).reverse());
            lemma_count_unnamed_le(views.take(i));
        }
        let named = b.is_named();
        if named || unnamed < k {
            let ghost before = out@;
            out.push(b);
            proof {
                assert(buffer_views(out@) =~= buffer_views(before).push(b@));
            }
        }
        if !named {
            unnamed = unnamed + 1;
        }
        proof {
            i = i + 1;
        }
    }
    proof {
        assert(views.take(i) =~= views);
    }
    out
}

/// The elements of `d`, moved into a vector in the same order.
fn deque_into_vec<T>(d: VecDeque<T>) -> (v: Vec<T>)
    ensures
        v@ == d@,
{
    let mut src = d;
    let ghost orig = src@;
    let mut out: Vec<T> = Vec::new();
    while src.len() > 0
        invariant
            orig == out@ + src@,
        decreases src@.len(),
    {
        let ghost before = src@;
        match src.pop_front() {
            Some(x) => {
                out.push(x);
                proof {
                    assert(orig =~= out@ + src@);
                }
            },
            None => {},
        }
    }
    proof {
        assert(out@ + src@ =~= out@);
    }
    out
}

/// The elements of `v`, moved into a deque in the same order.
fn vec_into_deque<T>(v: Vec<T>) -> (d: VecDeque<T>)
    ensures
        d@ == v@,
{
    let ghost orig = v@;
    let mut rev = reversed(v);
    let mut out: VecDeque<T> = VecDeque::new();
    proof {
        assert(orig.take(0) =~= Seq::<T>::empty());
    }
    while rev.len() > 0
        invariant
            rev@.len() <= orig.len(),
            rev@ == orig.skip(orig.len() - rev@.len()).reverse(),
            out@ == orig.take(orig.len() - rev@.len()),
        decreases rev@.len(),
    {
        let ghost k = orig.len() - rev@.len();
        let x = rev.pop().unwrap();
        proof {
            assert(x == orig[k]);
            assert(rev@ =~= orig.skip(k + 1).reverse());
        }
        out.push_back(x);
        proof {
            assert(out@ =~= orig.take(k + 1));
        }
    }
    proof {
        assert(orig.take(orig.len() as int) =~= orig);
    }
    out
}

impl BufferRing {
    #[verifier::type_invariant]
    closed spec fn inv(self) -> bool {
        &&& ring_ok(self@)
        &&& self.next_seq == self.next_id
    }

    /// Every ring satisfies [`ring_ok`].
    pub fn check_invariant(&self)
        ensures
            ring_ok(self@),
    {
        proof {
            use_type_invariant(self);
        }
    }

    /// An empty ring holding at most `limit` unnamed buffers (`0` counts
    /// as `1`).
    pub fn new(limit: usize) -> (r: Self)
        ensures
            r@.buffers.len() == 0,
            r@.limit == clamp_limit(limit),
            r@.next_id == 0,
    {
        let limit = if limit == 0 {
            1
        } else {
            limit
        };
        BufferRing { buffers: VecDeque::new(), limit, next_id: 0, next_seq: 0 }
    }

    /// The bound on unnamed buffers.
    pub fn limit(&self) -> (l: usize)
        ensures
            l == self@.limit,
    {
        self.limit
    }

    /// The number of buffers held, named and unnamed alike.
    pub fn len(&self) -> (n: usize)
        ensures
            n == self@.buffers.len(),
    {
        self.buffers.len()
    }

    /// Whether the ring holds no buffers.
    pub fn is_empty(&self) -> (b: bool)
        ensures
            b == (self@.buffers.len() == 0),
    {
        self.buffers.len() == 0
    }

    /// Whether another buffer can still be given a fresh id (the id space
    /// is 64 bits wide).
    pub fn has_id_capacity(&self) -> (b: bool)
        ensures
            b == (self@.next_id < u64::MAX),
    {
        self.next_id < u64::MAX
    }

    /// Pushes a new unnamed buffer at the front, evicting the oldest
    /// unnamed buffer if that exceeds the limit. Blank text is rejected
    /// (`None`, nothing changes); other text is stored verbatim.
    pub fn push<T: IntoText>(&mut self, text: T) -> (r: Option<BufferId>)
        requires
            !text::is_blank(text.text_view()) ==> old(self)@.next_id < u64::MAX,
        ensures
            text::is_blank(text.text_view()) ==> r is None && final(self)@ == old(self)@,
            !text::is_blank(text.text_view()) ==> (r matches Some(id) && id@ == old(self)@.next_id
                && final(self)@ == (RingView {
                buffers: keep_recent(
                    seq![fresh(old(self)@.next_id, text.text_view(), None)] + old(self)@.buffers,
                    old(self)@.limit,
                ),
                next_id: old(self)@.next_id + 1,
                ..old(self)@
            })),
    {
        proof {
            use_type_invariant(&*self);
        }
        let text = text.into_text();
        if text::str_blank(text.as_str()) {
            return None;
        }
        let id = BufferId(self.next_id);
        let buf = PasteBuffer { id, text, name: None, seq: self.next_seq };
        let mut taken: VecDeque<PasteBuffer> = VecDeque::new();
        std::mem::swap(&mut taken, &mut self.buffers);
        let mut current = deque_into_vec(taken);
        let ghost old_views = buffer_views(current@);
        current.insert(0, buf);
        proof {
            assert(buffer_views(current@) =~= seq![buf@] + old_views);
            lemma_push_front_ok(old_views, buf@, self.next_id as nat);
            lemma_keep_recent_ok(seq![buf@] + old_views, self.limit as nat, (self.next_id + 1) as nat);
            lemma_keep_recent(seq![buf@] + old_views, self.limit as nat);
        }
        let kept = keep_recent_vec(current, self.limit);
        *self = BufferRing {
            buffers: vec_into_deque(kept),
            limit: self.limit,
            next_id: self.next_id + 1,
            next_seq: self.next_seq + 1,
        };
        Some(id)
    }
}

/// `s` without the buffers named `n`, except the one whose id is `keep`.
pub open spec fn drop_named(s: Seq<BufferView>, n: Seq<char>, keep: Option<u64>) -> Seq<BufferView>
    decreases s.len(),
{
    if s.len() == 0 {
        Seq::empty()
    } else {
        let p = drop_named(s.drop_last(), n, keep);
        if keep == Some(s.last().id) || s.last().name != Some(n) {
            p.push(s.last())
        } else {
            p
        }
    }
}

/// `s` with the buffer whose id is `id` renamed to `n`.
pub open spec fn rename(s: Seq<BufferView>, id: u64, n: Option<Seq<char>>) -> Seq<BufferView> {
    s.map_values(|b: BufferView| if b.id == id { BufferView { name: n, ..b } } else { b })
}

/// The first position at or after `i` holding id `id` (or `s.len()`).
pub open spec fn find_id(s: Seq<BufferView>, id: u64, i: int) -> int
    decreases s.len() - i,
{
    if i < 0 || i >= s.len() {
        s.len() as int
    } else if s[i].id == id {
        i
    } else {
        find_id(s, id, i + 1)
    }
}

/// The first position at or after `i` whose name is `n` (or `s.len()`).
pub open spec fn find_name(s: Seq<BufferView>, n: Seq<char>, i: int) -> int
    decreases s.len() - i,
{
    if i < 0 || i >= s.len() {
        s.len() as int
    } else if s[i].name == Some(n) {
        i
    } else {
        find_name(s, n, i + 1)
    }
}

/// Which position a user's buffer selector picks: the trimmed selector as
/// a name first, then as a decimal index; nothing for an empty selector,
/// an unknown name or an index past the end.
pub open spec fn resolve_index(s: Seq<BufferView>, selector: Seq<char>) -> Option<int> {
    let t = text::trim(selector);
    if t.len() == 0 {
        None
    } else if find_name(s, t, 0) < s.len() {
        Some(find_name(s, t, 0))
    } else {
        match text::parse_unsigned(t, usize::MAX as nat) {
            Some(i) => if i < s.len() {
                Some(i as int)
            } else {
                None
            },
            None => None,
        }
    }
}

pub proof fn lemma_find_id_bounds(s: Seq<BufferView>, id: u64, i: int)
    requires
        0 <= i <= s.len(),
    ensures
        i <= find_id(s, id, i) <= s.len(),
        find_id(s, id, i) < s.len() ==> s[find_id(s, id, i)].id == id,
        find_id(s, id, i) == s.len() ==> forall|k: int| i <= k < s.len() ==> #[trigger] s[k].id != id,
    decreases s.len() - i,
{
    if i < s.len() && s[i].id != id {
        lemma_find_id_bounds(s, id, i + 1);
    }
}

pub proof fn lemma_find_name_bounds(s: Seq<BufferView>, n: Seq<char>, i: int)
    requires
        0 <= i <= s.len(),
    ensures
        i <= find_name(s, n, i) <= s.len(),
        find_name(s, n, i) < s.len() ==> s[find_name(s, n, i)].name == Some(n),
        find_name(s, n, i) == s.len() ==> forall|k: int| i <= k < s.len() ==> #[trigger] s[k].name != Some(n),
    decreases s.len() - i,
{
    if i < s.len() && s[i].name != Some(n) {
        lemma_find_name_bounds(s, n, i + 1);
    }
}

/// What dropping a name keeps: members of `s` only, the kept id, no other
/// holder of the name, and no more unnamed buffers than before.
pub proof fn lemma_drop_named(s: Seq<BufferView>, n: Seq<char>, keep: Option<u64>)
    ensures
        drop_named(s, n, keep).len() <= s.len(),
        count_unnamed(drop_named(s, n, keep)) == count_unnamed(s),
        forall|i: int| 0 <= i < drop_named(s, n, keep).len() ==> s.contains(#[trigger] drop_named(s, n, keep)[i]),
        forall|i: int|
            0 <= i < drop_named(s, n, keep).len() ==> (keep == Some(
                #[trigger] drop_named(s, n, keep)[i].id,
            ) || drop_named(s, n, keep)[i].name != Some(n)),
        forall|i: int| 0 <= i < s.len() && keep == Some((#[trigger] s[i]).id) ==> drop_named(s, n, keep).contains(s[i]),
    decreases s.len(),
{
    if s.len() > 0 {
        let init = s.drop_last();
        lemma_drop_named(init, n, keep);
        let p = drop_named(init, n, keep);
        assert(p.push(s.last()).drop_last() =~= p);
        assert forall|i: int| 0 <= i < drop_named(s, n, keep).len() implies s.contains(
            #[trigger] drop_named(s, n, keep)[i],
        ) by {
            if i < p.len() {
                assert(init.contains(p[i]));
                let j = choose|j: int| 0 <= j < init.len() && init[j] == p[i];
                assert(s[j] == p[i]);
            } else {
                assert(s[s.len() - 1] == s.last());
            }
        }
        assert forall|i: int| 0 <= i < s.len() && keep == Some((#[trigger] s[i]).id) implies drop_named(
            s,
            n,
            keep,
        ).contains(s[i]) by {
            if i < s.len() - 1 {
                assert(init[i] == s[i]);
                let j = choose|j: int| 0 <= j < p.len() && p[j] == init[i];
                assert(drop_named(s, n, keep)[j] == p[j]);
            } else {
                assert(drop_named(s, n, keep)[p.len() as int] == s.last());
            }
        }
    }
}

/// Dropping a name keeps the buffer invariants.
pub proof fn lemma_drop_named_ok(s: Seq<BufferView>, n: Seq<char>, keep: Option<u64>, next: nat)
    requires
        buffers_ok(s, next),
    ensures
        buffers_ok(drop_named(s, n, keep), next),
    decreases s.len(),
{
    if s.len() > 0 {
        let init = s.drop_last();
        assert(buffers_ok(init, next));
        lemma_drop_named_ok(init, n, keep, next);
        lemma_drop_named(init, n, keep);
        let p = drop_named(init, n, keep);
        let r = drop_named(s, n, keep);
        if r.len() > p.len() {
            assert forall|i: int| 0 <= i < p.len() implies #[trigger] p[i].seq > s.last().seq && (
            p[i].name is Some ==> p[i].name != s.last().name) by {
                assert(init.contains(p[i]));
                let j = choose|j: int| 0 <= j < init.len() && init[j] == p[i];
                assert(s[j] == p[i]);
                assert(s[s.len() - 1] == s.last());
            }
            assert forall|i: int, j: int| 0 <= i < j < r.len() implies #[trigger] r[i].seq
                > #[trigger] r[j].seq by {
                assert(r[i] == p[i]);
                if j < r.len() - 1 {
                    assert(r[j] == p[j]);
                }
            }
            assert forall|i: int, j: int| 0 <= i < j < r.len() && r[i].name is Some implies #[trigger] r[i].name
                != #[trigger] r[j].name by {
                assert(r[i] == p[i]);
                if j < r.len() - 1 {
                    assert(r[j] == p[j]);
                }
            }
            assert forall|i: int| 0 <= i < r.len() implies (#[trigger] r[i]).id == r[i].seq
                && r[i].seq < next && !text::is_blank(r[i].text) by {
                if i < p.len() {
                    assert(r[i] == p[i]);
                } else {
                    assert(s[s.len() - 1] == s.last());
                }
            }
        }
    }
}

pub proof fn lemma_count_unnamed_rename(s: Seq<BufferView>, id: u64, n: Option<Seq<char>>)
    ensures
        n is Some ==> count_unnamed(rename(s, id, n)) <= count_unnamed(s),
    decreases s.len(),
{
    if s.len() > 0 {
        lemma_count_unnamed_rename(s.drop_last(), id, n);
        assert(rename(s, id, n).drop_last() =~= rename(s.drop_last(), id, n));
    }
}

/// Owned-vector form of [`drop_named`].
fn drop_named_vec(v: Vec<PasteBuffer>, n: &str, keep: Option<BufferId>) -> (r: Vec<PasteBuffer>)
    ensures
        buffer_views(r@) == drop_named(
            buffer_views(v@),
            n@,
            match keep {
                Some(k) => Some(k@),
                None => None,
            },
        ),
{
    let ghost keepv: Option<u64> = match keep {
        Some(k) => Some(k@),
        None => None,
    };
    let ghost orig = v@;
    let ghost views = buffer_views(v@);
    let mut rev = reversed(v);
    let mut out: Vec<PasteBuffer> = Vec::new();
    let ghost mut i: int = 0;
    proof {
        assert(views.take(0) =~= Seq::<BufferView>::empty());
        assert(orig.skip(0) =~= orig);
    }
    while rev.len() > 0
        invariant
            0 <= i <= orig.len(),
            rev@.len() == orig.len() - i,
            rev@ == orig.skip(i).reverse(),
            views == buffer_views(orig),
            buffer_views(out@) == drop_named(views.take(i), n@, keepv),
            keepv == (match keep {
                Some(k) => Some(k@),
                None => None,
            }),
        decreases rev@.len(),
    {
        let b = rev.pop().unwrap();
        proof {
            assert(b == orig[i]);
            assert(views.take(i + 1).drop_last() =~= views.take(i));
            assert(views.take(i + 1).last() == b@);
            assert(rev@ =~= orig.skip(i + 1).reverse());
        }
        let kept_by_id = match keep {
            Some(k) => b.id.0 == k.0,
            None => false,
        };
        let holds_name = match &b.name {
            Some(bn) => text::str_eq(bn.as_str(), n),
            None => false,
        };
        proof {
            assert(kept_by_id == (keepv == Some(b@.id)));
            assert(holds_name == (b@.name == Some(n@)));
        }
        if kept_by_id || !holds_name {
            let ghost before = out@;
            out.push(b);
            proof {
                assert(buffer_views(out@) =~= buffer_views(before).push(b@));
            }
        }
        proof {
            i = i + 1;
        }
    }
    proof {
        assert(views.take(i) =~= views);
    }
    out
}

/// The position of the buffer with id `id`.
fn position_of_id(v: &VecDeque<PasteBuffer>, id: BufferId) -> (r: usize)
    ensures
        r == find_id(buffer_views(v@), id@, 0),
{
    let ghost views = buffer_views(v@);
    let mut i: usize = 0;
    while i < v.len()
        invariant
            i <= v@.len(),
            views == buffer_views(v@),
            find_id(views, id@, 0) == find_id(views, id@, i as int),
        decreases v@.len() - i,
    {
        if v[i].id == id {
            return i;
        }
        i = i + 1;
    }
    i
}

/// The position of the buffer with id `id` in an owned vector.
fn position_in_vec(v: &Vec<PasteBuffer>, id: BufferId) -> (r: usize)
    ensures
        r == find_id(buffer_views(v@), id@, 0),
{
    let ghost views = buffer_views(v@);
    let mut i: usize = 0;
    while i < v.len()
        invariant
            i <= v@.len(),
            views == buffer_views(v@),
            find_id(views, id@, 0) == find_id(views, id@, i as int),
        decreases v@.len() - i,
    {
        if v[i].id == id {
            return i;
        }
        i = i + 1;
    }
    i
}

/// The position of the first buffer named `n`.
fn position_of_name(v: &VecDeque<PasteBuffer>, n: &str) -> (r: usize)
    ensures
        r == find_name(buffer_views(v@), n@, 0),
{
    let ghost views = buffer_views(v@);
    let mut i: usize = 0;
    while i < v.len()
        invariant
            i <= v@.len(),
            views == buffer_views(v@),
            find_name(views, n@, 0) == find_name(views, n@, i as int),
        decreases v@.len() - i,
    {
        let hit = match &v[i].name {
            Some(bn) => text::str_eq(bn.as_str(), n),
            None => false,
        };
        if hit {
            return i;
        }
        i = i + 1;
    }
    i
}

impl BufferRing {
    /// Pushes a new named buffer at the front (tmux `set-buffer -b`): any
    /// buffer already holding `name` is removed, and nothing is evicted.
    /// Blank text is rejected (`None`, nothing changes).
    pub fn push_named<T: IntoText, N: IntoText>(&mut self, text: T, name: N) -> (r: Option<BufferId>)
        requires
            !text::is_blank(text.text_view()) ==> old(self)@.next_id < u64::MAX,
        ensures
            text::is_blank(text.text_view()) ==> r is None && final(self)@ == old(self)@,
            !text::is_blank(text.text_view()) ==> (r matches Some(id) && id@ == old(self)@.next_id
                && final(self)@ == (RingView {
                buffers: seq![fresh(old(self)@.next_id, text.text_view(), Some(name.text_view()))]
                    + drop_named(old(self)@.buffers, name.text_view(), None),
                next_id: old(self)@.next_id + 1,
                ..old(self)@
            })),
    {
        proof {
            use_type_invariant(&*self);
        }
        let text = text.into_text();
        if text::str_blank(text.as_str()) {
            return None;
        }
        let name = name.into_text();
        let mut taken: VecDeque<PasteBuffer> = VecDeque::new();
        std::mem::swap(&mut taken, &mut self.buffers);
        let mut current = deque_into_vec(taken);
        let ghost old_views = buffer_views(current@);
        let mut rest = drop_named_vec(current, name.as_str(), None);
        let id = BufferId(self.next_id);
        let buf = PasteBuffer { id, text, name: Some(name), seq: self.next_seq };
        let ghost dropped = buffer_views(rest@);
        rest.insert(0, buf);
        proof {
            lemma_drop_named(old_views, buf@.name->0, None);
            lemma_drop_named_ok(old_views, buf@.name->0, None, self.next_id as nat);
            assert forall|i: int| 0 <= i < dropped.len() implies #[trigger] dropped[i].name
                != buf@.name by {}
            lemma_push_front_ok(dropped, buf@, self.next_id as nat);
            assert(buffer_views(rest@) =~= seq![buf@] + dropped);
            assert(count_unnamed(seq![buf@] + dropped) == count_unnamed(dropped)) by {
                lemma_count_unnamed_front(buf@, dropped);
            }
        }
        *self = BufferRing {
            buffers: vec_into_deque(rest),
            limit: self.limit,
            next_id: self.next_id + 1,
            next_seq: self.next_seq + 1,
        };
        Some(id)
    }

    /// Gives buffer `id` the name `name`, pinning it; another buffer
    /// holding that name is removed. Renaming a buffer to the name it
    /// already has changes nothing. Returns `false` (changing nothing) when
    /// no buffer has that id.
    pub fn set_name<N: IntoText>(&mut self, id: BufferId, name: N) -> (ok: bool)
        ensures
            ok == (find_id(old(self)@.buffers, id@, 0) < old(self)@.buffers.len()),
            !ok ==> final(self)@ == old(self)@,
            ok ==> final(self)@ == (RingView {
                buffers: rename(
                    drop_named(old(self)@.buffers, name.text_view(), Some(id@)),
                    id@,
                    Some(name.text_view()),
                ),
                ..old(self)@
            }),
    {
        proof {
            use_type_invariant(&*self);
            lemma_find_id_bounds(self@.buffers, id@, 0);
        }
        let pos = position_of_id(&self.buffers, id);
        if pos >= self.buffers.len() {
            return false;
        }
        let name = name.into_text();
        let mut taken: VecDeque<PasteBuffer> = VecDeque::new();
        std::mem::swap(&mut taken, &mut self.buffers);
        let mut current = deque_into_vec(taken);
        let ghost old_views = buffer_views(current@);
        let mut rest = drop_named_vec(current, name.as_str(), Some(id));
        let ghost dropped = buffer_views(rest@);
        proof {
            lemma_drop_named(old_views, name@, Some(id@));
            lemma_drop_named_ok(old_views, name@, Some(id@), self.next_id as nat);
            assert(old_views.contains(old_views[pos as int]));
            lemma_find_id_bounds(dropped, id@, 0);
            if find_id(dropped, id@, 0) >= dropped.len() {
                assert(dropped.contains(old_views[pos as int]));
                let j = choose|j: int| 0 <= j < dropped.len() && dropped[j] == old_views[pos as int];
                assert(dropped[j].id == id@);
            }
        }
        let k = position_in_vec(&rest, id);
        let mut b = rest.remove(k);
        b.name = Some(name);
        rest.insert(k, b);
        proof {
            let renamed = rename(dropped, id@, Some(name@));
            assert forall|i: int| 0 <= i < dropped.len() && i != k implies dropped[i].id != id@ by {
                if i != k as int {
                    assert(dropped[i].seq != dropped[k as int].seq);
                }
            }
            assert(buffer_views(rest@) =~= renamed);
            lemma_count_unnamed_rename(dropped, id@, Some(name@));
            assert forall|i: int, j: int| 0 <= i < j < renamed.len() && renamed[i].name is Some implies #[trigger] renamed[i].name
                != #[trigger] renamed[j].name by {
                if i != k && j != k {
                    assert(renamed[i] == dropped[i] && renamed[j] == dropped[j]);
                } else if i == k {
                    assert(renamed[j] == dropped[j]);
                } else {
                    assert(renamed[i] == dropped[i]);
                }
            }
            assert forall|i: int, j: int| 0 <= i < j < renamed.len() implies #[trigger] renamed[i].seq
                > #[trigger] renamed[j].seq by {
                assert(renamed[i].seq == dropped[i].seq && renamed[j].seq == dropped[j].seq);
            }
            assert forall|i: int| 0 <= i < renamed.len() implies (#[trigger] renamed[i]).id
                == renamed[i].seq && renamed[i].seq < self.next_id && !text::is_blank(
                renamed[i].text,
            ) by {
                assert(renamed[i].seq == dropped[i].seq && renamed[i].text == dropped[i].text);
            }
        }
        self.buffers = vec_into_deque(rest);
        true
    }

    /// Removes buffer `id`'s name, making it evictable again; the limit is
    /// re-enforced at once. Returns `false` (changing nothing) when no
    /// buffer has that id.
    pub fn clear_name(&mut self, id: BufferId) -> (ok: bool)
        ensures
            ok == (find_id(old(self)@.buffers, id@, 0) < old(self)@.buffers.len()),
            !ok ==> final(self)@ == old(self)@,
            ok ==> final(self)@ == (RingView {
                buffers: keep_recent(rename(old(self)@.buffers, id@, None), old(self)@.limit),
                ..old(self)@
            }),
    {
        proof {
            use_type_invariant(&*self);
            lemma_find_id_bounds(self@.buffers, id@, 0);
        }
        let pos = position_of_id(&self.buffers, id);
        if pos >= self.buffers.len() {
            return false;
        }
        let mut taken: VecDeque<PasteBuffer> = VecDeque::new();
        std::mem::swap(&mut taken, &mut self.buffers);
        let mut current = deque_into_vec(taken);
        let ghost old_views = buffer_views(current@);
        let mut b = current.remove(pos);
        b.name = None;
        current.insert(pos, b);
        proof {
            let renamed = rename(old_views, id@, None);
            assert forall|i: int| 0 <= i < old_views.len() && i != pos implies old_views[i].id != id@ by {
                assert(old_views[i].seq != old_views[pos as int].seq);
            }
            assert(buffer_views(current@) =~= renamed);
            assert forall|i: int, j: int| 0 <= i < j < renamed.len() && renamed[i].name is Some implies #[trigger] renamed[i].name
                != #[trigger] renamed[j].name by {
                if i != pos && j != pos {
                    assert(renamed[i] == old_views[i] && renamed[j] == old_views[j]);
                } else if j == pos {
                    assert(renamed[i] == old_views[i]);
                }
            }
            assert forall|i: int, j: int| 0 <= i < j < renamed.len() implies #[trigger] renamed[i].seq
                > #[trigger] renamed[j].seq by {
                assert(renamed[i].seq == old_views[i].seq && renamed[j].seq == old_views[j].seq);
            }
            assert forall|i: int| 0 <= i < renamed.len() implies (#[trigger] renamed[i]).id
                == renamed[i].seq && renamed[i].seq < self.next_id && !text::is_blank(
                renamed[i].text,
            ) by {
                assert(renamed[i].seq == old_views[i].seq && renamed[i].text == old_views[i].text);
            }
            lemma_keep_recent_ok(renamed, self.limit as nat, self.next_id as nat);
            lemma_keep_recent(renamed, self.limit as nat);
        }
        let kept = keep_recent_vec(current, self.limit);
        self.buffers = vec_into_deque(kept);
        true
    }

    /// The buffer at `index`, most recent first (`0` is the most recent).
    pub fn get(&self, index: usize) -> (r: Option<&PasteBuffer>)
        ensures
            index < self@.buffers.len() ==> (r matches Some(b) && b@ == self@.buffers[index as int]),
            index >= self@.buffers.len() ==> r is None,
    {
        if index < self.buffers.len() {
            Some(&self.buffers[index])
        } else {
            None
        }
    }

    /// The most recently pushed buffer, if any (`get(0)`).
    pub fn most_recent(&self) -> (r: Option<&PasteBuffer>)
        ensures
            self@.buffers.len() > 0 ==> (r matches Some(b) && b@ == self@.buffers[0]),
            self@.buffers.len() == 0 ==> r is None,
    {
        self.get(0)
    }

    /// The buffer with id `id`, if present.
    pub fn get_by_id(&self, id: BufferId) -> (r: Option<&PasteBuffer>)
        ensures
            find_id(self@.buffers, id@, 0) < self@.buffers.len() ==> (r matches Some(b) && b@
                == self@.buffers[find_id(self@.buffers, id@, 0)]),
            find_id(self@.buffers, id@, 0) >= self@.buffers.len() ==> r is None,
    {
        let pos = position_of_id(&self.buffers, id);
        self.get(pos)
    }

    /// The buffer named `name`, if any.
    pub fn get_by_name(&self, name: &str) -> (r: Option<&PasteBuffer>)
        ensures
            find_name(self@.buffers, name@, 0) < self@.buffers.len() ==> (r matches Some(b) && b@
                == self@.buffers[find_name(self@.buffers, name@, 0)]),
            find_name(self@.buffers, name@, 0) >= self@.buffers.len() ==> r is None,
    {
        let pos = position_of_name(&self.buffers, name);
        self.get(pos)
    }

    /// Resolves a user's buffer selector (tmux `paste-buffer -b`): the
    /// trimmed selector as a name first, then as a positional index; see
    /// [`resolve_index`].
    pub fn resolve(&self, selector: &str) -> (r: Option<&PasteBuffer>)
        ensures
            match resolve_index(self@.buffers, selector@) {
                Some(k) => r matches Some(b) && b@ == self@.buffers[k],
                None => r is None,
            },
    {
        let cs = text::chars_of(selector);
        let t = text::trim_chars(cs.as_slice());
        if t.len() == 0 {
            return None;
        }
        let ts = text::string_of(t.as_slice());
        let pos = position_of_name(&self.buffers, ts.as_str());
        if pos < self.buffers.len() {
            return self.get(pos);
        }
        match text::parse_unsigned_chars(t.as_slice(), usize::MAX as u64) {
            Some(i) => {
                if i < self.buffers.len() as u64 {
                    self.get(i as usize)
                } else {
                    None
                }
            },
            None => None,
        }
    }

    /// Removes and returns buffer `id`, named or not.
    pub fn remove(&mut self, id: BufferId) -> (r: Option<PasteBuffer>)
        ensures
            ({
                let k = find_id(old(self)@.buffers, id@, 0);
                &&& k < old(self)@.buffers.len() ==> (r matches Some(b) && b@ == old(self)@.buffers[k]
                    && final(self)@ == (RingView {
                    buffers: old(self)@.buffers.remove(k),
                    ..old(self)@
                }))
                &&& k >= old(self)@.buffers.len() ==> r is None && final(self)@ == old(self)@
            }),
    {
        proof {
            use_type_invariant(&*self);
            lemma_find_id_bounds(self@.buffers, id@, 0);
        }
        let pos = position_of_id(&self.buffers, id);
        if pos >= self.buffers.len() {
            return None;
        }
        let mut taken: VecDeque<PasteBuffer> = VecDeque::new();
        std::mem::swap(&mut taken, &mut self.buffers);
        let mut current = deque_into_vec(taken);
        let ghost old_views = buffer_views(current@);
        let b = current.remove(pos);
        proof {
            let r = old_views.remove(pos as int);
            assert(buffer_views(current@) =~= r);
            assert forall|i: int, j: int| 0 <= i < j < r.len() implies #[trigger] r[i].seq
                > #[trigger] r[j].seq by {
                if i < pos {
                    assert(r[i] == old_views[i]);
                } else {
                    assert(r[i] == old_views[i + 1]);
                }
                if j < pos {
                    assert(r[j] == old_views[j]);
                } else {
                    assert(r[j] == old_views[j + 1]);
                }
            }
            assert forall|i: int, j: int| 0 <= i < j < r.len() && r[i].name is Some implies #[trigger] r[i].name
                != #[trigger] r[j].name by {
                if i < pos {
                    assert(r[i] == old_views[i]);
                } else {
                    assert(r[i] == old_views[i + 1]);
                }
                if j < pos {
                    assert(r[j] == old_views[j]);
                } else {
                    assert(r[j] == old_views[j + 1]);
                }
            }
            assert forall|i: int| 0 <= i < r.len() implies (#[trigger] r[i]).id == r[i].seq
                && r[i].seq < self.next_id && !text::is_blank(r[i].text) by {
                if i < pos {
                    assert(r[i] == old_views[i]);
                } else {
                    assert(r[i] == old_views[i + 1]);
                }
            }
            lemma_count_unnamed_remove(old_views, pos as int);
        }
        self.buffers = vec_into_deque(current);
        Some(b)
    }

    /// Removes every buffer, named or not.
    pub fn clear(&mut self)
        ensures
            final(self)@ == (RingView { buffers: Seq::empty(), ..old(self)@ }),
    {
        proof {
            use_type_invariant(&*self);
        }
        let empty: VecDeque<PasteBuffer> = VecDeque::new();
        proof {
            assert(buffer_views(empty@) =~= Seq::<BufferView>::empty());
        }
        *self = BufferRing {
            buffers: empty,
            limit: self.limit,
            next_id: self.next_id,
            next_seq: self.next_seq,
        };
    }

    /// Iterates over all buffers, most recent first.
    pub fn iter(&self) -> (r: std::collections::vec_deque::Iter<'_, PasteBuffer>)
        ensures
            buffer_views(
                vstd::std_specs::vecdeque::into_iter_elts(r).map_values(|b: &PasteBuffer| *b),
            ) == self@.buffers,
    {
        let it = self.buffers.iter();
        proof {
            assert(vstd::std_specs::vecdeque::into_iter_elts(it).map_values(|b: &PasteBuffer| *b)
                =~= self.buffers@);
        }
        it
    }

    /// Changes the unnamed-buffer limit (`0` counts as `1`), evicting the
    /// oldest unnamed buffers at once if the ring is now over it.
    pub fn set_limit(&mut self, limit: usize)
        ensures
            final(self)@ == (RingView {
                buffers: keep_recent(old(self)@.buffers, clamp_limit(limit)),
                limit: clamp_limit(limit),
                ..old(self)@
            }),
    {
        proof {
            use_type_invariant(&*self);
        }
        let limit = if limit == 0 {
            1
        } else {
            limit
        };
        let mut taken: VecDeque<PasteBuffer> = VecDeque::new();
        std::mem::swap(&mut taken, &mut self.buffers);
        let mut current = deque_into_vec(taken);
        proof {
            lemma_keep_recent_ok(buffer_views(current@), limit as nat, self.next_id as nat);
            lemma_keep_recent(buffer_views(current@), limit as nat);
        }
        let kept = keep_recent_vec(current, limit);
        *self = BufferRing {
            buffers: vec_into_deque(kept),
            limit,
            next_id: self.next_id,
            next_seq: self.next_seq,
        };
    }
}

pub proof fn lemma_count_unnamed_front(b: BufferView, s: Seq<BufferView>)
    ensures
        count_unnamed(seq![b] + s) == count_unnamed(s) + if b.name is None {
            1nat
        } else {
            0nat
        },
    decreases s.len(),
{
    if s.len() == 0 {
        assert(seq![b] + s =~= seq![b]);
        assert(seq![b].drop_last() =~= Seq::<BufferView>::empty());
        assert(count_unnamed(Seq::<BufferView>::empty()) == 0);
        assert(seq![b].last() == b);
    } else {
        lemma_count_unnamed_front(b, s.drop_last());
        assert((seq![b] + s).drop_last() =~= seq![b] + s.drop_last());
        assert((seq![b] + s).last() == s.last());
    }
}

pub proof fn lemma_count_unnamed_remove(s: Seq<BufferView>, k: int)
    requires
        0 <= k < s.len(),
    ensures
        count_unnamed(s.remove(k)) <= count_unnamed(s),
    decreases s.len(),
{
    if k == s.len() - 1 {
        assert(s.remove(k) =~= s.drop_last());
    } else {
        lemma_count_unnamed_remove(s.drop_last(), k);
        assert(s.remove(k).drop_last() =~= s.drop_last().remove(k));
    }
}


// ---------------------------------------------------------------------
// The `buffer_limit` setting
// ---------------------------------------------------------------------

/// An error parsing a `buffer_limit` configuration value.
#[derive(Debug, Clone, PartialEq, Eq)]
pub enum BufferLimitError {
    /// The value is not a plain non-negative integer; carries the trimmed
    /// input.
    NotANumber(String),
    /// The value is `0`.
    Zero,
}

/// What [`parse_buffer_limit`] gives for `raw`: the trimmed value read as
/// an unsigned decimal; `0` and non-numbers are errors.
pub open spec fn buffer_limit_of(raw: Seq<char>) -> Result<nat, Option<Seq<char>>> {
    let t = text::trim(raw);
    match text::parse_unsigned(t, usize::MAX as nat) {
        Some(n) => if n == 0 {
            Err(None)
        } else {
            Ok(n)
        },
        None => Err(Some(t)),
    }
}

/// The message of a `buffer_limit` error whose input was `raw`.
pub open spec fn not_a_number_message(raw: Seq<char>) -> Seq<char> {
    "'"@ + raw + "' is not a valid buffer_limit (expected a positive integer)"@
}

impl BufferLimitError {
    /// The human-readable description of the error.
    pub fn message(&self) -> (m: String)
        ensures
            match self {
                BufferLimitError::NotANumber(raw) => m@ == not_a_number_message(raw@),
                BufferLimitError::Zero => m@ == "buffer_limit must be at least 1, got 0"@,
            },
    {
        match self {
            BufferLimitError::NotANumber(raw) => {
                let mut out: Vec<char> = Vec::new();
                text::append_str(&mut out, "'");
                text::append_str(&mut out, raw.as_str());
                text::append_str(&mut out, "' is not a valid buffer_limit (expected a positive integer)");
                text::string_of(out.as_slice())
            },
            BufferLimitError::Zero => "buffer_limit must be at least 1, got 0".to_owned(),
        }
    }
}

/// Parses a `buffer_limit` value: surrounding whitespace is trimmed, `0`
/// is rejected as [`BufferLimitError::Zero`], and anything else that is not
/// a plain unsigned integer (negative, decimal, empty, too large) as
/// [`BufferLimitError::NotANumber`] carrying the trimmed input.
pub fn parse_buffer_limit(raw: &str) -> (r: Result<usize, BufferLimitError>)
    ensures
        match buffer_limit_of(raw@) {
            Ok(n) => r == Ok::<usize, BufferLimitError>(n as usize),
            Err(None) => r == Err::<usize, BufferLimitError>(BufferLimitError::Zero),
            Err(Some(t)) => r matches Err(BufferLimitError::NotANumber(s)) && s@ == t,
        },
{
    let cs = text::chars_of(raw);
    let t = text::trim_chars(cs.as_slice());
    match text::parse_unsigned_chars(t.as_slice(), usize::MAX as u64) {
        Some(n) => {
            if n == 0 {
                Err(BufferLimitError::Zero)
            } else {
                Ok(n as usize)
            }
        },
        None => Err(BufferLimitError::NotANumber(text::string_of(t.as_slice()))),
    }
}

// ---------------------------------------------------------------------
// Rebuilding a ring from persisted data
// ---------------------------------------------------------------------

/// One buffer recovered from a persisted ring, ready for
/// [`BufferRing::restore`]. `seq` only orders the entries and settles
/// duplicate names; the ring assigns fresh ids and creation numbers.
pub struct RestoredBuffer {
    /// The creation number read back (higher is newer).
    pub seq: u64,
    /// The buffer's name, if any.
    pub name: Option<String>,
    /// The buffer's text.
    pub text: String,
}

/// The mathematical content of a [`RestoredBuffer`].
pub struct RestoredView {
    /// The creation number read back.
    pub seq: u64,
    /// The name, if any.
    pub name: Option<Seq<char>>,
    /// The text.
    pub text: Seq<char>,
}

impl View for RestoredBuffer {
    type V = RestoredView;

    open spec fn view(&self) -> RestoredView {
        RestoredView { seq: self.seq, name: opt_view(self.name), text: self.text@ }
    }
}

/// The views of a sequence of restored entries.
pub open spec fn restored_views(v: Seq<RestoredBuffer>) -> Seq<RestoredView> {
    v.map_values(|e: RestoredBuffer| e@)
}

/// `s` without its blank-text entries, in order.
pub open spec fn drop_blank(s: Seq<RestoredView>) -> Seq<RestoredView>
    decreases s.len(),
{
    if s.len() == 0 {
        Seq::empty()
    } else {
        let p = drop_blank(s.drop_last());
        if text::is_blank(s.last().text) {
            p
        } else {
            p.push(s.last())
        }
    }
}

/// The first position at or after `i` whose creation number is below `k`
/// (or `s.len()`): where an entry numbered `k` goes in a newest-first
/// sequence, after every entry at least as new.
pub open spec fn insert_pos(s: Seq<RestoredView>, k: u64, i: int) -> int
    decreases s.len() - i,
{
    if i < 0 || i >= s.len() {
        s.len() as int
    } else if s[i].seq < k {
        i
    } else {
        insert_pos(s, k, i + 1)
    }
}

/// `s` sorted newest first by creation number; entries with equal numbers
/// keep their relative order.
pub open spec fn sort_desc(s: Seq<RestoredView>) -> Seq<RestoredView>
    decreases s.len(),
{
    if s.len() == 0 {
        Seq::empty()
    } else {
        let p = sort_desc(s.drop_last());
        let q = insert_pos(p, s.last().seq, 0);
        p.take(q).push(s.last()) + p.skip(q)
    }
}

/// Whether some entry of `s` is named `n`.
pub open spec fn has_name(s: Seq<RestoredView>, n: Seq<char>) -> bool {
    exists|j: int| 0 <= j < s.len() && (#[trigger] s[j]).name == Some(n)
}

/// `s` keeping only the first entry holding each name.
pub open spec fn dedup_names(s: Seq<RestoredView>) -> Seq<RestoredView>
    decreases s.len(),
{
    if s.len() == 0 {
        Seq::empty()
    } else {
        let p = dedup_names(s.drop_last());
        match s.last().name {
            Some(n) => if has_name(p, n) {
                p
            } else {
                p.push(s.last())
            },
            None => p.push(s.last()),
        }
    }
}

/// Newest-first entries turned into buffers with fresh ids and creation
/// numbers: the last (oldest) gets `0`, the first `s.len() - 1`.
pub open spec fn numbered(s: Seq<RestoredView>) -> Seq<BufferView> {
    Seq::new(
        s.len(),
        |k: int|
            BufferView {
                id: (s.len() - 1 - k) as u64,
                text: s[k].text,
                name: s[k].name,
                seq: (s.len() - 1 - k) as u64,
            },
    )
}

/// The ring [`BufferRing::restore`] builds: blank entries dropped, the rest
/// ordered newest first by creation number, each name kept by its newest
/// holder, fresh ids and creation numbers, then the limit (clamped to at
/// least `1`) enforced as [`keep_recent`] does.
pub open spec fn restore_view(limit: usize, entries: Seq<RestoredView>) -> RingView {
    let d = dedup_names(sort_desc(drop_blank(entries)));
    RingView {
        buffers: keep_recent(numbered(d), clamp_limit(limit)),
        limit: clamp_limit(limit),
        next_id: d.len(),
    }
}

/// No entry of `s` has blank text.
pub open spec fn all_nonblank(s: Seq<RestoredView>) -> bool {
    forall|i: int| 0 <= i < s.len() ==> !text::is_blank((#[trigger] s[i]).text)
}

/// No two entries of `s` hold the same name.
pub open spec fn restored_names_unique(s: Seq<RestoredView>) -> bool {
    forall|i: int, j: int|
        0 <= i < j < s.len() && s[i].name is Some ==> #[trigger] s[i].name != #[trigger] s[j].name
}

pub proof fn lemma_drop_blank(s: Seq<RestoredView>)
    ensures
        all_nonblank(drop_blank(s)),
        drop_blank(s).len() <= s.len(),
    decreases s.len(),
{
    if s.len() > 0 {
        lemma_drop_blank(s.drop_last());
        let p = drop_blank(s.drop_last());
        if !text::is_blank(s.last().text) {
            assert forall|i: int| 0 <= i < p.push(s.last()).len() implies !text::is_blank(
                (#[trigger] p.push(s.last())[i]).text,
            ) by {
                if i < p.len() {
                    assert(p.push(s.last())[i] == p[i]);
                }
            }
        }
    }
}

pub proof fn lemma_insert_pos_bounds(s: Seq<RestoredView>, k: u64, i: int)
    requires
        0 <= i <= s.len(),
    ensures
        i <= insert_pos(s, k, i) <= s.len(),
        forall|j: int| i <= j < insert_pos(s, k, i) ==> #[trigger] s[j].seq >= k,
    decreases s.len() - i,
{
    if i < s.len() && s[i].seq >= k {
        lemma_insert_pos_bounds(s, k, i + 1);
    }
}

pub proof fn lemma_sort_desc(s: Seq<RestoredView>)
    requires
        all_nonblank(s),
    ensures
        all_nonblank(sort_desc(s)),
        sort_desc(s).len() == s.len(),
    decreases s.len(),
{
    if s.len() > 0 {
        let init = s.drop_last();
        assert(all_nonblank(init)) by {
            assert forall|i: int| 0 <= i < init.len() implies !text::is_blank((#[trigger] init[i]).text) by {
                assert(init[i] == s[i]);
            }
        }
        lemma_sort_desc(init);
        let p = sort_desc(init);
        let q = insert_pos(p, s.last().seq, 0);
        lemma_insert_pos_bounds(p, s.last().seq, 0);
        let r = p.take(q).push(s.last()) + p.skip(q);
        assert(!text::is_blank(s.last().text)) by {
            assert(s[s.len() - 1] == s.last());
        }
        assert forall|i: int| 0 <= i < r.len() implies !text::is_blank((#[trigger] r[i]).text) by {
            if i < q {
                assert(r[i] == p[i]);
            } else if i > q {
                assert(r[i] == p[i - 1]);
            }
        }
    }
}

pub proof fn lemma_dedup_names(s: Seq<RestoredView>)
    requires
        all_nonblank(s),
    ensures
        all_nonblank(dedup_names(s)),
        restored_names_unique(dedup_names(s)),
        dedup_names(s).len() <= s.len(),
    decreases s.len(),
{
    if s.len() > 0 {
        let init = s.drop_last();
        assert(all_nonblank(init)) by {
            assert forall|i: int| 0 <= i < init.len() implies !text::is_blank((#[trigger] init[i]).text) by {
                assert(init[i] == s[i]);
            }
        }
        lemma_dedup_names(init);
        let p = dedup_names(init);
        let r = dedup_names(s);
        if r.len() > p.len() {
            assert(r == p.push(s.last()));
            assert(!text::is_blank(s.last().text)) by {
                assert(s[s.len() - 1] == s.last());
            }
            assert forall|i: int| 0 <= i < r.len() implies !text::is_blank((#[trigger] r[i]).text) by {
                if i < p.len() {
                    assert(r[i] == p[i]);
                }
            }
            assert forall|i: int, j: int| 0 <= i < j < r.len() && r[i].name is Some implies #[trigger] r[i].name
                != #[trigger] r[j].name by {
                assert(r[i] == p[i]);
                if j < p.len() {
                    assert(r[j] == p[j]);
                } else {
                    if r[i].name == s.last().name {
                        assert(has_name(p, s.last().name->0));
                    }
                }
            }
        }
    }
}

/// Numbering deduplicated, non-blank entries gives a valid buffer
/// sequence.
pub proof fn lemma_numbered_ok(s: Seq<RestoredView>)
    requires
        all_nonblank(s),
        restored_names_unique(s),
        s.len() <= u64::MAX,
    ensures
        buffers_ok(numbered(s), s.len()),
{
    let r = numbered(s);
    assert forall|i: int, j: int| 0 <= i < j < r.len() implies #[trigger] r[i].seq > #[trigger] r[j].seq by {
        assert(r[i].seq == s.len() - 1 - i);
        assert(r[j].seq == s.len() - 1 - j);
    }
    assert forall|i: int, j: int| 0 <= i < j < r.len() && r[i].name is Some implies #[trigger] r[i].name
        != #[trigger] r[j].name by {
        assert(r[i].name == s[i].name && r[j].name == s[j].name);
    }
    assert forall|i: int| 0 <= i < r.len() implies (#[trigger] r[i]).id == r[i].seq && r[i].seq
        < s.len() && !text::is_blank(r[i].text) by {
        assert(r[i].text == s[i].text);
        assert(r[i].seq == s.len() - 1 - i);
    }
}

/// Owned-vector form of [`drop_blank`].
fn drop_blank_vec(v: Vec<RestoredBuffer>) -> (r: Vec<RestoredBuffer>)
    ensures
        restored_views(r@) == drop_blank(restored_views(v@)),
{
    let ghost orig = v@;
    let ghost views = restored_views(v@);
    let mut rev = reversed(v);
    let mut out: Vec<RestoredBuffer> = Vec::new();
    let ghost mut i: int = 0;
    proof {
        assert(views.take(0) =~= Seq::<RestoredView>::empty());
        assert(orig.skip(0) =~= orig);
    }
    while rev.len() > 0
        invariant
            0 <= i <= orig.len(),
            rev@.len() == orig.len() - i,
            rev@ == orig.skip(i).reverse(),
            views == restored_views(orig),
            restored_views(out@) == drop_blank(views.take(i)),
        decreases rev@.len(),
    {
        let e = rev.pop().unwrap();
        proof {
            assert(e == orig[i]);
            assert(views.take(i + 1).drop_last() =~= views.take(i));
            assert(views.take(i + 1).last() == e@);
            assert(rev@ =~= orig.skip(i + 1).reverse());
        }
        if !text::str_blank(e.text.as_str()) {
            let ghost before = out@;
            out.push(e);
            proof {
                assert(restored_views(out@) =~= restored_views(before).push(e@));
            }
        }
        proof {
            i = i + 1;
        }
    }
    proof {
        assert(views.take(i) =~= views);
    }
    out
}

/// Where an entry numbered `k` goes in the newest-first `v`.
fn insert_position(v: &Vec<RestoredBuffer>, k: u64) -> (r: usize)
    ensures
        r == insert_pos(restored_views(v@), k, 0),
{
    let ghost views = restored_views(v@);
    let mut i: usize = 0;
    while i < v.len()
        invariant
            i <= v@.len(),
            views == restored_views(v@),
            insert_pos(views, k, 0) == insert_pos(views, k, i as int),
        decreases v@.len() - i,
    {
        if v[i].seq < k {
            return i;
        }
        i = i + 1;
    }
    i
}

/// Owned-vector form of [`sort_desc`] (a stable insertion sort).
pub(crate) fn sort_desc_vec(v: Vec<RestoredBuffer>) -> (r: Vec<RestoredBuffer>)
    ensures
        restored_views(r@) == sort_desc(restored_views(v@)),
{
    let ghost orig = v@;
    let ghost views = restored_views(v@);
    let mut rev = reversed(v);
    let mut out: Vec<RestoredBuffer> = Vec::new();
    let ghost mut i: int = 0;
    proof {
        assert(views.take(0) =~= Seq::<RestoredView>::empty());
        assert(orig.skip(0) =~= orig);
    }
    while rev.len() > 0
        invariant
            0 <= i <= orig.len(),
            rev@.len() == orig.len() - i,
            rev@ == orig.skip(i).reverse(),
            views == restored_views(orig),
            restored_views(out@) == sort_desc(views.take(i)),
        decreases rev@.len(),
    {
        let e = rev.pop().unwrap();
        proof {
            assert(e == orig[i]);
            assert(views.take(i + 1).drop_last() =~= views.take(i));
            assert(views.take(i + 1).last() == e@);
            assert(rev@ =~= orig.skip(i + 1).reverse());
        }
        let ghost before = restored_views(out@);
        let q = insert_position(&out, e.seq);
        proof {
            lemma_insert_pos_bounds(before, e.seq, 0);
        }
        out.insert(q, e);
        proof {
            assert(restored_views(out@) =~= before.take(q as int).push(e@) + before.skip(q as int));
            i = i + 1;
        }
    }
    proof {
        assert(views.take(i) =~= views);
    }
    out
}

/// Whether some entry of `v` is named `n`.
fn has_name_vec(v: &Vec<RestoredBuffer>, n: &str) -> (b: bool)
    ensures
        b == has_name(restored_views(v@), n@),
{
    let ghost views = restored_views(v@);
    let mut i: usize = 0;
    while i < v.len()
        invariant
            i <= v@.len(),
            views == restored_views(v@),
            forall|j: int| 0 <= j < i ==> (#[trigger] views[j]).name != Some(n@),
        decreases v@.len() - i,
    {
        let hit = match &v[i].name {
            Some(m) => text::str_eq(m.as_str(), n),
            None => false,
        };
        if hit {
            proof {
                assert(views[i as int].name == Some(n@));
            }
            return true;
        }
        proof {
            assert(views[i as int].name != Some(n@));
        }
        i = i + 1;
    }
    false
}

/// Owned-vector form of [`dedup_names`]: each name is checked against the
/// entries already kept (vstd models `HashSet` only for key types whose
/// hashing it specifies, which `String` is not).
fn dedup_names_vec(v: Vec<RestoredBuffer>) -> (r: Vec<RestoredBuffer>)
    ensures
        restored_views(r@) == dedup_names(restored_views(v@)),
{
    let ghost orig = v@;
    let ghost views = restored_views(v@);
    let mut rev = reversed(v);
    let mut out: Vec<RestoredBuffer> = Vec::new();
    let ghost mut i: int = 0;
    proof {
        assert(views.take(0) =~= Seq::<RestoredView>::empty());
        assert(orig.skip(0) =~= orig);
    }
    while rev.len() > 0
        invariant
            0 <= i <= orig.len(),
            rev@.len() == orig.len() - i,
            rev@ == orig.skip(i).reverse(),
            views == restored_views(orig),
            restored_views(out@) == dedup_names(views.take(i)),
        decreases rev@.len(),
    {
        let e = rev.pop().unwrap();
        proof {
            assert(e == orig[i]);
            assert(views.take(i + 1).drop_last() =~= views.take(i));
            assert(views.take(i + 1).last() == e@);
            assert(rev@ =~= orig.skip(i + 1).reverse());
        }
        let dup = match &e.name {
            Some(n) => has_name_vec(&out, n.as_str()),
            None => false,
        };
        if !dup {
            let ghost before = out@;
            out.push(e);
            proof {
                assert(restored_views(out@) =~= restored_views(before).push(e@));
            }
        }
        proof {
            i = i + 1;
        }
    }
    proof {
        assert(views.take(i) =~= views);
    }
    out
}

/// Owned-vector form of [`numbered`].
fn numbered_vec(v: Vec<RestoredBuffer>) -> (r: Vec<PasteBuffer>)
    ensures
        buffer_views(r@) == numbered(restored_views(v@)),
{
    let ghost orig = v@;
    let ghost views = restored_views(v@);
    let n = v.len();
    let mut rev = reversed(v);
    let mut out: Vec<PasteBuffer> = Vec::new();
    let mut k: usize = 0;
    proof {
        assert(orig.skip(0) =~= orig);
    }
    while rev.len() > 0
        invariant
            k <= orig.len(),
            n == orig.len(),
            rev@.len() == orig.len() - k,
            rev@ == orig.skip(k as int).reverse(),
            views == restored_views(orig),
            buffer_views(out@) == numbered(views).take(k as int),
        decreases rev@.len(),
    {
        let e = rev.pop().unwrap();
        proof {
            assert(e == orig[k as int]);
            assert(rev@ =~= orig.skip(k + 1).reverse());
        }
        let number = (n - 1 - k) as u64;
        let b = PasteBuffer { id: BufferId(number), text: e.text, name: e.name, seq: number };
        let ghost before = out@;
        out.push(b);
        proof {
            assert(b@ == numbered(views)[k as int]);
            assert(buffer_views(out@) =~= buffer_views(before).push(b@));
            assert(numbered(views).take(k + 1) =~= numbered(views).take(k as int).push(
                numbered(views)[k as int],
            ));
        }
        k = k + 1;
    }
    proof {
        assert(numbered(views).take(k as int) =~= numbered(views));
    }
    out
}

impl BufferRing {
    /// Rebuilds a ring from persisted entries, re-establishing every
    /// invariant rather than trusting them: blank entries are dropped, the
    /// rest ordered newest first by `seq`, each name kept by its newest
    /// holder, fresh ids and creation numbers assigned, and the (clamped)
    /// `limit` enforced, evicting only unnamed buffers.
    pub fn restore(limit: usize, entries: Vec<RestoredBuffer>) -> (r: Self)
        ensures
            r@ == restore_view(limit, restored_views(entries@)),
    {
        let ghost views = restored_views(entries@);
        let kept = drop_blank_vec(entries);
        let sorted = sort_desc_vec(kept);
        let unique = dedup_names_vec(sorted);
        let ghost d = restored_views(unique@);
        let count = unique.len();
        proof {
            lemma_drop_blank(views);
            lemma_sort_desc(drop_blank(views));
            lemma_dedup_names(sort_desc(drop_blank(views)));
            lemma_numbered_ok(d);
        }
        let numbered_buffers = numbered_vec(unique);
        let limit = if limit == 0 {
            1
        } else {
            limit
        };
        proof {
            lemma_keep_recent_ok(numbered(d), limit as nat, d.len());
            lemma_keep_recent(numbered(d), limit as nat);
        }
        let buffers = keep_recent_vec(numbered_buffers, limit);
        BufferRing {
            buffers: vec_into_deque(buffers),
            limit,
            next_id: count as u64,
            next_seq: count as u64,
        }
    }
}

impl Default for BufferRing {
    /// A ring with tmux's default limit.
    fn default() -> (r: Self)
        ensures
            r@.buffers.len() == 0,
            r@.limit == DEFAULT_BUFFER_LIMIT,
            r@.next_id == 0,
    {
        BufferRing::new(DEFAULT_BUFFER_LIMIT)
    }
}

impl Clone for BufferRing {
    fn clone(&self) -> (r: Self)
        ensures
            r@ == self@,
    {
        proof {
            use_type_invariant(self);
        }
        let mut copies: Vec<PasteBuffer> = Vec::new();
        let mut i: usize = 0;
        while i < self.buffers.len()
            invariant
                i <= self.buffers@.len(),
                buffer_views(copies@) == buffer_views(self.buffers@).take(i as int),
            decreases self.buffers@.len() - i,
        {
            let b = self.buffers[i].clone();
            let ghost before = copies@;
            copies.push(b);
            proof {
                assert(b@ == self.buffers@[i as int]@);
                assert(buffer_views(copies@) =~= buffer_views(before).push(b@));
                assert(buffer_views(self.buffers@).take(i + 1) =~= buffer_views(self.buffers@).take(
                    i as int,
                ).push(self.buffers@[i as int]@));
            }
            i = i + 1;
        }
        proof {
            assert(buffer_views(self.buffers@).take(i as int) =~= buffer_views(self.buffers@));
        }
        BufferRing {
            buffers: vec_into_deque(copies),
            limit: self.limit,
            next_id: self.next_id,
            next_seq: self.next_seq,
        }
    }
}

// ---------------------------------------------------------------------
// Laws of the ring
// ---------------------------------------------------------------------

/// The oldest-unnamed-first eviction never drops the front buffer once the
/// limit is at least one.
pub proof fn lemma_keep_recent_front(s: Seq<BufferView>, k: nat)
    requires
        s.len() > 0,
        k >= 1,
    ensures
        keep_recent(s, k).len() >= 1,
        keep_recent(s, k)[0] == s[0],
    decreases s.len(),
{
    if s.len() == 1 {
        assert(s.drop_last() =~= Seq::<BufferView>::empty());
        assert(count_unnamed(s.drop_last()) == 0);
        assert(keep_recent(s.drop_last(), k) =~= Seq::<BufferView>::empty());
    } else {
        lemma_keep_recent_front(s.drop_last(), k);
    }
}

/// Pushing an unnamed buffer puts it at the front, never evicts a named
/// buffer, evicts nothing while the ring is under its limit, and leaves at
/// most `limit` unnamed buffers.
pub proof fn law_push_keeps_named_and_front(r: RingView, t: Seq<char>)
    requires
        ring_ok(r),
    ensures
        ({
            let b = fresh(r.next_id, t, None);
            let out = keep_recent(seq![b] + r.buffers, r.limit);
            &&& out.len() >= 1 && out[0] == b
            &&& forall|i: int|
                0 <= i < r.buffers.len() && (#[trigger] r.buffers[i]).name is Some ==> out.contains(
                    r.buffers[i],
                )
            &&& count_unnamed(r.buffers) < r.limit ==> out == seq![b] + r.buffers
            &&& count_unnamed(out) <= r.limit
        }),
{
    let b = fresh(r.next_id, t, None);
    let s = seq![b] + r.buffers;
    lemma_keep_recent_front(s, r.limit);
    lemma_keep_recent(s, r.limit);
    lemma_count_unnamed_front(b, r.buffers);
    assert forall|i: int|
        0 <= i < r.buffers.len() && (#[trigger] r.buffers[i]).name is Some implies keep_recent(
        s,
        r.limit,
    ).contains(r.buffers[i]) by {
        assert(s[i + 1] == r.buffers[i]);
    }
}

/// Ids are never reused: every buffer's id is below the next id handed
/// out, and no two buffers share an id or a creation number.
pub proof fn law_ids_fresh_and_distinct(r: RingView)
    requires
        ring_ok(r),
    ensures
        forall|i: int| 0 <= i < r.buffers.len() ==> (#[trigger] r.buffers[i]).id < r.next_id,
        forall|i: int, j: int|
            0 <= i < j < r.buffers.len() ==> #[trigger] r.buffers[i].id != #[trigger] r.buffers[j].id,
{
}

/// Raising the limit never brings back or drops anything.
pub proof fn law_growing_limit_keeps_everything(r: RingView, limit: usize)
    requires
        ring_ok(r),
        clamp_limit(limit) >= r.limit,
    ensures
        keep_recent(r.buffers, clamp_limit(limit)) == r.buffers,
{
    lemma_keep_recent(r.buffers, clamp_limit(limit));
}

/// A selector that names a buffer picks that buffer, even when the same
/// text would also read as a valid index.
pub proof fn law_resolve_prefers_names(s: Seq<BufferView>, selector: Seq<char>)
    requires
        text::trim(selector).len() > 0,
        exists|i: int| 0 <= i < s.len() && (#[trigger] s[i]).name == Some(text::trim(selector)),
    ensures
        resolve_index(s, selector) matches Some(k) && s[k].name == Some(text::trim(selector)),
{
    let t = text::trim(selector);
    let i = choose|i: int| 0 <= i < s.len() && (#[trigger] s[i]).name == Some(t);
    lemma_find_name_bounds(s, t, 0);
    if find_name(s, t, 0) == s.len() {
        assert(s[i].name != Some(t));
    }
}

/// Creation numbers strictly decrease from front to back.
pub open spec fn restored_desc(s: Seq<RestoredView>) -> bool {
    forall|i: int, j: int| 0 <= i < j < s.len() ==> #[trigger] s[i].seq > #[trigger] s[j].seq
}

/// Sorting entries already newest first changes nothing.
pub proof fn lemma_sort_desc_sorted(s: Seq<RestoredView>)
    requires
        restored_desc(s),
    ensures
        sort_desc(s) == s,
    decreases s.len(),
{
    if s.len() > 0 {
        let init = s.drop_last();
        assert forall|i: int, j: int| 0 <= i < j < init.len() implies #[trigger] init[i].seq
            > #[trigger] init[j].seq by {
            assert(init[i] == s[i] && init[j] == s[j]);
        }
        lemma_sort_desc_sorted(init);
        lemma_insert_pos_none(init, s.last().seq, 0);
        assert(init.take(init.len() as int) =~= init);
        assert(init.skip(init.len() as int) =~= Seq::<RestoredView>::empty());
        assert(init.push(s.last()) + Seq::<RestoredView>::empty() =~= s);
    }
}

proof fn lemma_insert_pos_none(s: Seq<RestoredView>, k: u64, i: int)
    requires
        0 <= i <= s.len(),
        forall|j: int| 0 <= j < s.len() ==> #[trigger] s[j].seq > k,
    ensures
        insert_pos(s, k, i) == s.len(),
    decreases s.len() - i,
{
    if i < s.len() {
        lemma_insert_pos_none(s, k, i + 1);
    }
}

/// Deduplicating names that are already unique changes nothing.
pub proof fn lemma_dedup_names_unique(s: Seq<RestoredView>)
    requires
        restored_names_unique(s),
    ensures
        dedup_names(s) == s,
    decreases s.len(),
{
    if s.len() > 0 {
        let init = s.drop_last();
        assert forall|i: int, j: int| 0 <= i < j < init.len() && init[i].name is Some implies #[trigger] init[i].name
            != #[trigger] init[j].name by {
            assert(init[i] == s[i] && init[j] == s[j]);
        }
        lemma_dedup_names_unique(init);
        match s.last().name {
            Some(n) => {
                if has_name(init, n) {
                    let j = choose|j: int| 0 <= j < init.len() && (#[trigger] init[j]).name == Some(n);
                    assert(s[j].name == s[s.len() - 1].name);
                }
            },
            None => {},
        }
        assert(init.push(s.last()) =~= s);
    }
}

/// Dropping blank entries from entries that have none changes nothing.
pub proof fn lemma_drop_blank_none(s: Seq<RestoredView>)
    requires
        all_nonblank(s),
    ensures
        drop_blank(s) == s,
    decreases s.len(),
{
    if s.len() > 0 {
        let init = s.drop_last();
        assert forall|i: int| 0 <= i < init.len() implies !text::is_blank((#[trigger] init[i]).text) by {
            assert(init[i] == s[i]);
        }
        lemma_drop_blank_none(init);
        assert(!text::is_blank(s[s.len() - 1].text));
        assert(init.push(s.last()) =~= s);
    }
}

/// The unnamed count depends on the names alone.
pub proof fn lemma_count_unnamed_same_names(a: Seq<BufferView>, b: Seq<BufferView>)
    requires
        a.len() == b.len(),
        forall|i: int| 0 <= i < a.len() ==> (#[trigger] a[i]).name == b[i].name,
    ensures
        count_unnamed(a) == count_unnamed(b),
    decreases a.len(),
{
    if a.len() > 0 {
        let ai = a.drop_last();
        let bi = b.drop_last();
        assert forall|i: int| 0 <= i < ai.len() implies (#[trigger] ai[i]).name == bi[i].name by {
            assert(ai[i] == a[i] && bi[i] == b[i]);
        }
        lemma_count_unnamed_same_names(ai, bi);
        assert(a.last().name == a[a.len() - 1].name);
    }
}

/// A preview is never longer than asked for, and a truncated one is
/// exactly that long, ending in `…`.
pub proof fn law_preview_length(t: Seq<char>, max: nat)
    ensures
        preview_of(t, max).len() <= max,
        max > 0 && text::trim(collapse_ws(t)).len() > max ==> preview_of(t, max).len() == max
            && preview_of(t, max).last() == '…',
{
}

/// A decimal number with whitespace around it trims to its digits.
proof fn lemma_trim_padded_decimal(n: nat, front: Seq<char>, back: Seq<char>)
    requires
        forall|k: int| 0 <= k < front.len() ==> text::is_ws(#[trigger] front[k]),
        forall|k: int| 0 <= k < back.len() ==> text::is_ws(#[trigger] back[k]),
    ensures
        text::trim(front + text::decimal(n) + back) == text::decimal(n),
{
    let d = text::decimal(n);
    let s = front + d + back;
    let a = front.len() as int;
    let b = a + d.len();
    text::lemma_decimal_digits(n);
    assert forall|k: int| a <= k < b implies !text::is_ws(#[trigger] s[k]) by {
        assert(s[k] == d[k - a]);
        assert(text::is_digit(d[k - a]));
    }
    text::lemma_skip_ws_bounds(s, 0);
    text::lemma_back_ws_bounds(s, s.len() as int);
    let i = text::skip_ws(s, 0);
    let j = text::back_ws(s, s.len() as int);
    if i < a {
        assert(s[i] == front[i]);
    }
    if i > a {
        assert(text::is_ws(s[a]));
    }
    if j > b {
        assert(s[j - 1] == back[j - 1 - b]);
    }
    if j < b {
        assert(text::is_ws(s[b - 1]));
    }
    assert(text::trim(s) =~= d);
}

/// Every positive integer that fits in `usize`, written in decimal and
/// with any whitespace around it, is accepted as that limit; `0` is
/// refused as zero, and a larger number as not a number (carrying the
/// digits).
pub proof fn law_buffer_limit_reads_decimals(n: nat, front: Seq<char>, back: Seq<char>)
    requires
        forall|k: int| 0 <= k < front.len() ==> text::is_ws(#[trigger] front[k]),
        forall|k: int| 0 <= k < back.len() ==> text::is_ws(#[trigger] back[k]),
    ensures
        1 <= n <= usize::MAX ==> buffer_limit_of(front + text::decimal(n) + back) == Ok::<
            nat,
            Option<Seq<char>>,
        >(n),
        n == 0 ==> buffer_limit_of(front + text::decimal(n) + back) == Err::<
            nat,
            Option<Seq<char>>,
        >(None),
        n > usize::MAX ==> buffer_limit_of(front + text::decimal(n) + back) == Err::<
            nat,
            Option<Seq<char>>,
        >(Some(text::decimal(n))),
{
    let d = text::decimal(n);
    text::lemma_decimal_digits(n);
    lemma_trim_padded_decimal(n, front, back);
    if n <= usize::MAX {
        text::law_parse_decimal(n, usize::MAX as nat);
    } else {
        assert(d.len() > 0 && d[0] != '+') by {
            assert(text::is_digit(d[0]));
        }
    }
}

/// `s` has an unnamed buffer, and the last one sits at `j`.
proof fn lemma_last_unnamed(s: Seq<BufferView>)
    requires
        count_unnamed(s) > 0,
    ensures
        exists|j: int|
            0 <= j < s.len() && (#[trigger] s[j]).name is None && forall|k: int|
                j < k < s.len() ==> (#[trigger] s[k]).name is Some,
    decreases s.len(),
{
    if s.last().name is None {
        assert(s[s.len() - 1].name is None);
    } else {
        lemma_last_unnamed(s.drop_last());
        let j = choose|j: int|
            0 <= j < s.drop_last().len() && (#[trigger] s.drop_last()[j]).name is None && forall|
                k: int,
            | j < k < s.drop_last().len() ==> (#[trigger] s.drop_last()[k]).name is Some;
        assert(s[j] == s.drop_last()[j]);
        assert forall|k: int| j < k < s.len() implies (#[trigger] s[k]).name is Some by {
            if k < s.len() - 1 {
                assert(s[k] == s.drop_last()[k]);
            }
        }
    }
}

/// One unnamed buffer over the bound: eviction drops exactly the last
/// (oldest) unnamed buffer.
proof fn lemma_keep_recent_drops_oldest(s: Seq<BufferView>, k: nat, j: int)
    requires
        count_unnamed(s) == k + 1,
        0 <= j < s.len(),
        s[j].name is None,
        forall|i: int| j < i < s.len() ==> (#[trigger] s[i]).name is Some,
    ensures
        keep_recent(s, k) == s.remove(j),
    decreases s.len(),
{
    let init = s.drop_last();
    if j == s.len() - 1 {
        assert(count_unnamed(init) == k);
        lemma_keep_recent(init, k);
        assert(s.remove(j) =~= init);
    } else {
        assert(s.last() == s[s.len() - 1]);
        assert forall|i: int| j < i < init.len() implies (#[trigger] init[i]).name is Some by {
            assert(init[i] == s[i]);
        }
        lemma_keep_recent_drops_oldest(init, k, j);
        assert(s.remove(j) =~= init.remove(j).push(s.last()));
    }
}

/// Pushing onto a full ring evicts exactly one buffer, the oldest unnamed
/// one, and keeps everything else in order; below the limit nothing goes.
pub proof fn law_push_evicts_oldest_unnamed(r: RingView, t: Seq<char>)
    requires
        ring_ok(r),
    ensures
        ({
            let s = seq![fresh(r.next_id, t, None)] + r.buffers;
            let out = keep_recent(s, r.limit);
            &&& count_unnamed(r.buffers) < r.limit ==> out == s
            &&& count_unnamed(r.buffers) == r.limit ==> exists|j: int|
                1 <= j < s.len() && (#[trigger] s[j]).name is None && (forall|i: int|
                    j < i < s.len() ==> (#[trigger] s[i]).name is Some) && out == s.remove(j)
        }),
{
    let b = fresh(r.next_id, t, None);
    let s = seq![b] + r.buffers;
    lemma_count_unnamed_front(b, r.buffers);
    lemma_keep_recent(s, r.limit);
    if count_unnamed(r.buffers) == r.limit {
        lemma_last_unnamed(r.buffers);
        let j0 = choose|j: int|
            0 <= j < r.buffers.len() && (#[trigger] r.buffers[j]).name is None && forall|k: int|
                j < k < r.buffers.len() ==> (#[trigger] r.buffers[k]).name is Some;
        let j = j0 + 1;
        assert(s[j] == r.buffers[j0]);
        assert forall|i: int| j < i < s.len() implies (#[trigger] s[i]).name is Some by {
            assert(s[i] == r.buffers[i - 1]);
        }
        lemma_keep_recent_drops_oldest(s, r.limit, j);
    }
}

proof fn lemma_drop_named_holder(s: Seq<BufferView>, n: Seq<char>, j: int)
    requires
        -1 <= j < s.len(),
        j >= 0 ==> s[j].name == Some(n),
        forall|k: int| 0 <= k < s.len() && k != j ==> (#[trigger] s[k]).name != Some(n),
    ensures
        j < 0 ==> drop_named(s, n, None) == s,
        j >= 0 ==> drop_named(s, n, None) == s.remove(j),
    decreases s.len(),
{
    if s.len() > 0 {
        let init = s.drop_last();
        assert(s.last() == s[s.len() - 1]);
        if j == s.len() - 1 {
            assert forall|k: int| 0 <= k < init.len() && k != -1 implies (#[trigger] init[k]).name
                != Some(n) by {
                assert(init[k] == s[k]);
            }
            lemma_drop_named_holder(init, n, -1);
            assert(s.remove(j) =~= init);
        } else {
            assert(j >= 0 ==> init[j] == s[j]);
            assert forall|k: int| 0 <= k < init.len() && k != j implies (#[trigger] init[k]).name
                != Some(n) by {
                assert(init[k] == s[k]);
            }
            lemma_drop_named_holder(init, n, j);
            if j >= 0 {
                assert(s.remove(j) =~= init.remove(j).push(s.last()));
            } else {
                assert(init.push(s.last()) =~= s);
            }
        }
    }
}

/// Pushing a named buffer puts it at the front and removes exactly the
/// buffer that held the name before, if any, keeping all others in order;
/// a later lookup of the name finds the new buffer.
pub proof fn law_push_named_replaces_holder(r: RingView, t: Seq<char>, n: Seq<char>)
    requires
        ring_ok(r),
    ensures
        ({
            let b = fresh(r.next_id, t, Some(n));
            let out = seq![b] + drop_named(r.buffers, n, None);
            let j = find_name(r.buffers, n, 0);
            &&& j == r.buffers.len() ==> out == seq![b] + r.buffers
            &&& j < r.buffers.len() ==> r.buffers[j].name == Some(n) && out == seq![b]
                + r.buffers.remove(j)
            &&& find_name(out, n, 0) == 0
        }),
{
    let s = r.buffers;
    lemma_find_name_bounds(s, n, 0);
    let j = find_name(s, n, 0);
    if j < s.len() {
        assert forall|k: int| 0 <= k < s.len() && k != j implies (#[trigger] s[k]).name != Some(
            n,
        ) by {
            if k > j {
                assert(s[j].name != s[k].name);
            }
        }
        lemma_drop_named_holder(s, n, j);
    } else {
        lemma_drop_named_holder(s, n, -1);
    }
}

/// A selector that is a buffer's position, written in decimal (with any
/// whitespace around it), picks the buffer at that position, unless some
/// buffer is named by those digits; a position past the end picks nothing.
pub proof fn law_resolve_reads_positions(s: Seq<BufferView>, i: nat, front: Seq<char>, back: Seq<char>)
    requires
        i <= usize::MAX,
        forall|k: int| 0 <= k < front.len() ==> text::is_ws(#[trigger] front[k]),
        forall|k: int| 0 <= k < back.len() ==> text::is_ws(#[trigger] back[k]),
        forall|k: int| 0 <= k < s.len() ==> (#[trigger] s[k]).name != Some(text::decimal(i)),
    ensures
        i < s.len() ==> resolve_index(s, front + text::decimal(i) + back) == Some(i as int),
        i >= s.len() ==> resolve_index(s, front + text::decimal(i) + back) is None,
{
    lemma_trim_padded_decimal(i, front, back);
    lemma_find_name_bounds(s, text::decimal(i), 0);
    text::law_parse_decimal(i, usize::MAX as nat);
}

/// The non-whitespace characters of `s`, in order.
pub open spec fn non_ws(s: Seq<char>) -> Seq<char>
    decreases s.len(),
{
    if s.len() == 0 {
        Seq::empty()
    } else {
        non_ws(s.drop_last()) + if text::is_ws(s.last()) {
            Seq::empty()
        } else {
            seq![s.last()]
        }
    }
}

proof fn lemma_non_ws_concat(x: Seq<char>, y: Seq<char>)
    ensures
        non_ws(x + y) == non_ws(x) + non_ws(y),
    decreases y.len(),
{
    if y.len() == 0 {
        assert(x + y =~= x);
        assert(non_ws(x) + non_ws(y) =~= non_ws(x));
    } else {
        lemma_non_ws_concat(x, y.drop_last());
        assert((x + y).drop_last() =~= x + y.drop_last());
        assert((x + y).last() == y.last());
        assert(non_ws(x) + non_ws(y) =~= non_ws(x) + non_ws(y.drop_last()) + (if text::is_ws(
            y.last(),
        ) {
            Seq::empty()
        } else {
            seq![y.last()]
        }));
    }
}

proof fn lemma_non_ws_blank(s: Seq<char>)
    requires
        forall|k: int| 0 <= k < s.len() ==> text::is_ws(#[trigger] s[k]),
    ensures
        non_ws(s) == Seq::<char>::empty(),
    decreases s.len(),
{
    if s.len() > 0 {
        lemma_non_ws_blank(s.drop_last());
        assert(text::is_ws(s[s.len() - 1]));
        assert(non_ws(s) =~= Seq::<char>::empty());
    }
}

/// What collapsing keeps: every whitespace character is a space, no two
/// whitespace characters touch, the last character is whitespace exactly
/// when the input's is, and the non-whitespace characters are the input's.
proof fn lemma_collapse_ws(t: Seq<char>)
    ensures
        forall|k: int|
            0 <= k < collapse_ws(t).len() && text::is_ws(#[trigger] collapse_ws(t)[k]) ==> collapse_ws(
                t,
            )[k] == ' ',
        forall|k: int|
            0 <= k < collapse_ws(t).len() - 1 ==> !(text::is_ws(#[trigger] collapse_ws(t)[k])
                && text::is_ws(collapse_ws(t)[k + 1])),
        collapse_ws(t).len() == 0 <==> t.len() == 0,
        t.len() > 0 ==> (text::is_ws(collapse_ws(t).last()) <==> text::is_ws(t.last())),
        non_ws(collapse_ws(t)) == non_ws(t),
    decreases t.len(),
{
    if t.len() > 0 {
        let init = t.drop_last();
        lemma_collapse_ws(init);
        let p = collapse_ws(init);
        let c = collapse_ws(t);
        assert(text::is_ws(' '));
        if text::is_ws(t.last()) {
            if t.len() >= 2 && text::is_ws(t[t.len() - 2]) {
                assert(init.last() == t[t.len() - 2]);
                assert(non_ws(t) =~= non_ws(init) + Seq::<char>::empty());
            } else {
                assert(c.drop_last() =~= p);
                assert(non_ws(c) =~= non_ws(p) + Seq::<char>::empty());
                assert(non_ws(t) =~= non_ws(init) + Seq::<char>::empty());
                if t.len() >= 2 {
                    assert(init.last() == t[t.len() - 2]);
                    assert(p[p.len() - 1] == p.last());
                }
                assert forall|k: int| 0 <= k < c.len() - 1 implies !(text::is_ws(#[trigger] c[k])
                    && text::is_ws(c[k + 1])) by {
                    if k < c.len() - 2 {
                        assert(c[k] == p[k] && c[k + 1] == p[k + 1]);
                    } else {
                        assert(c[k] == p.last());
                    }
                }
            }
        } else {
            assert(c.drop_last() =~= p);
            assert forall|k: int| 0 <= k < c.len() - 1 implies !(text::is_ws(#[trigger] c[k])
                && text::is_ws(c[k + 1])) by {
                if k < c.len() - 2 {
                    assert(c[k] == p[k] && c[k + 1] == p[k + 1]);
                }
            }
        }
    }
}

/// A preview is one readable line: its only whitespace is single spaces,
/// and it does not start with one. When it is not truncated it does not
/// end with one either, and it holds exactly the text's non-whitespace
/// characters in order; a truncated one holds a leading part of them,
/// followed by `…`.
pub proof fn law_preview_is_one_line(t: Seq<char>, max: nat)
    ensures
        ({
            let p = preview_of(t, max);
            let fits = text::trim(collapse_ws(t)).len() <= max;
            &&& forall|k: int| 0 <= k < p.len() && text::is_ws(#[trigger] p[k]) ==> p[k] == ' '
            &&& forall|k: int|
                0 <= k < p.len() - 1 ==> !(text::is_ws(#[trigger] p[k]) && text::is_ws(p[k + 1]))
            &&& p.len() > 0 ==> !text::is_ws(p[0])
            &&& max > 0 && fits ==> non_ws(p) == non_ws(t) && (p.len() > 0 ==> !text::is_ws(
                p.last(),
            ))
            &&& max > 0 && !fits ==> p.last() == '…' && non_ws(p).last() == '…' && non_ws(
                p,
            ).drop_last() == non_ws(t).take(non_ws(p).len() - 1)
        }),
{
    let c = collapse_ws(t);
    lemma_collapse_ws(t);
    text::lemma_skip_ws_bounds(c, 0);
    text::lemma_back_ws_bounds(c, c.len() as int);
    let a = text::skip_ws(c, 0);
    let b = text::back_ws(c, c.len() as int);
    let tc = text::trim(c);
    if a < b {
        assert(c =~= c.subrange(0, a) + tc + c.subrange(b, c.len() as int));
        lemma_non_ws_concat(c.subrange(0, a) + tc, c.subrange(b, c.len() as int));
        lemma_non_ws_concat(c.subrange(0, a), tc);
        lemma_non_ws_blank(c.subrange(0, a));
        lemma_non_ws_blank(c.subrange(b, c.len() as int));
        assert(non_ws(tc) =~= non_ws(c));
        assert forall|k: int| 0 <= k < tc.len() - 1 implies !(text::is_ws(#[trigger] tc[k])
            && text::is_ws(tc[k + 1])) by {
            assert(tc[k] == c[a + k] && tc[k + 1] == c[a + k + 1]);
        }
    } else {
        lemma_non_ws_blank(c);
        assert(non_ws(tc) =~= non_ws(c));
    }
    let p = preview_of(t, max);
    if max > 0 && tc.len() > max {
        let h = tc.take(max - 1);
        assert(!text::is_ws('…'));
        assert(tc =~= h + tc.skip(max - 1));
        lemma_non_ws_concat(h, tc.skip(max - 1));
        lemma_non_ws_concat(h, seq!['…']);
        assert(h.push('…') =~= h + seq!['…']);
        assert(non_ws(seq!['…']) =~= seq!['…']) by {
            assert(seq!['…'].drop_last() =~= Seq::<char>::empty());
            assert(non_ws(Seq::<char>::empty()) == Seq::<char>::empty());
            assert(seq!['…'].last() == '…');
            assert(Seq::<char>::empty() + seq!['…'] =~= seq!['…']);
        }
        assert(non_ws(p) =~= non_ws(h).push('…'));
        assert(non_ws(p).drop_last() =~= non_ws(h));
        assert(non_ws(t).take(non_ws(h).len() as int) =~= non_ws(h));
        assert forall|k: int| 0 <= k < p.len() - 1 implies !(text::is_ws(#[trigger] p[k])
            && text::is_ws(p[k + 1])) by {
            if k < p.len() - 2 {
                assert(p[k] == tc[k] && p[k + 1] == tc[k + 1]);
            }
        }
    }
}

proof fn lemma_count_char_concat(x: Seq<char>, y: Seq<char>, c: char)
    ensures
        count_char(x + y, c) == count_char(x, c) + count_char(y, c),
    decreases y.len(),
{
    if y.len() == 0 {
        assert(x + y =~= x);
    } else {
        lemma_count_char_concat(x, y.drop_last(), c);
        assert((x + y).drop_last() =~= x + y.drop_last());
        assert((x + y).last() == y.last());
    }
}

proof fn lemma_count_char_free(s: Seq<char>, c: char)
    requires
        forall|k: int| 0 <= k < s.len() ==> #[trigger] s[k] != c,
    ensures
        count_char(s, c) == 0,
    decreases s.len(),
{
    if s.len() > 0 {
        lemma_count_char_free(s.drop_last(), c);
        assert(s.last() == s[s.len() - 1]);
    }
}

proof fn lemma_count_one_newline()
    ensures
        count_char(seq!['\n'], '\n') == 1,
{
    assert(seq!['\n'].drop_last() =~= Seq::<char>::empty());
    assert(count_char(Seq::<char>::empty(), '\n') == 0);
    assert(seq!['\n'].last() == '\n');
}

proof fn lemma_count_newlines_joined(parts: Seq<Seq<char>>)
    requires
        parts.len() >= 1,
        forall|i: int, k: int| 0 <= i < parts.len() && 0 <= k < parts[i].len() ==> #[trigger] parts[i][k]
            != '\n',
    ensures
        count_char(text::join_with(parts, seq!['\n']), '\n') == parts.len() - 1,
    decreases parts.len(),
{
    let l = parts.last();
    assert forall|k: int| 0 <= k < l.len() implies #[trigger] l[k] != '\n' by {
        assert(l[k] == parts[parts.len() - 1][k]);
    }
    lemma_count_char_free(l, '\n');
    if parts.len() > 1 {
        let init = parts.drop_last();
        assert forall|i: int, k: int| 0 <= i < init.len() && 0 <= k < init[i].len() implies #[trigger] init[i][k]
            != '\n' by {
            assert(init[i] == parts[i]);
        }
        lemma_count_newlines_joined(init);
        let j = text::join_with(init, seq!['\n']);
        lemma_count_char_concat(j + seq!['\n'], l, '\n');
        lemma_count_char_concat(j, seq!['\n'], '\n');
        lemma_count_one_newline();
    }
}

/// Text made of `n` lines, the last one not empty, counts `n` lines
/// whether or not a newline ends it.
pub proof fn law_line_count_counts_lines(parts: Seq<Seq<char>>)
    requires
        parts.len() >= 1,
        parts.last().len() > 0,
        forall|i: int, k: int| 0 <= i < parts.len() && 0 <= k < parts[i].len() ==> #[trigger] parts[i][k]
            != '\n',
    ensures
        line_count_of(text::join_with(parts, seq!['\n'])) == parts.len(),
        line_count_of(text::join_with(parts, seq!['\n']).push('\n')) == parts.len(),
{
    let j = text::join_with(parts, seq!['\n']);
    lemma_count_newlines_joined(parts);
    let l = parts.last();
    assert(l[l.len() - 1] == parts[parts.len() - 1][l.len() - 1]);
    if parts.len() > 1 {
        assert(j == text::join_with(parts.drop_last(), seq!['\n']) + seq!['\n'] + l);
    }
    assert(j.len() > 0 && j.last() == l.last());
    lemma_count_char_concat(j, seq!['\n'], '\n');
    assert(j.push('\n') =~= j + seq!['\n']);
    lemma_count_one_newline();
}

} // verus!
