//! Where a plugin instance keeps its persisted ring, and what it does with
//! what it reads back; the file operations themselves belong to the host.

use vstd::prelude::*;
use crate::text;
use crate::buffer;
use crate::buffer::BufferRing;
use crate::persist;
use crate::persist::DecodeError;
use crate::persist::PersistMode;

verus! {

/// The directory every persisted ring lives in: a subdirectory the plugin
/// owns alone, since garbage collection deletes stale files in it.
pub open spec fn cache_dir_of() -> Seq<char> {
    "/cache/zclip"@
}

/// Reads and writes one plugin instance's persisted ring: the file is
/// keyed on the server process, so it outlives plugin reloads, and the
/// temporary file on the plugin instance, so two instances never collide.
#[derive(Debug, Clone, PartialEq, Eq)]
pub struct RingStore {
    dir: String,
    path: String,
    tmp: String,
}

/// The mathematical content of a [`RingStore`].
pub struct StoreView {
    /// The directory.
    pub dir: Seq<char>,
    /// The ring file.
    pub path: Seq<char>,
    /// The temporary file written before renaming onto `path`.
    pub tmp: Seq<char>,
}

impl View for RingStore {
    type V = StoreView;

    closed spec fn view(&self) -> StoreView {
        StoreView { dir: self.dir@, path: self.path@, tmp: self.tmp@ }
    }
}

/// What the host found when it read the ring file.
#[derive(Debug, Clone, PartialEq, Eq)]
pub enum ReadOutcome {
    /// There is no file: the normal first run.
    Missing,
    /// The file could not be read; carries the error's description.
    Failed(String),
    /// The file's contents.
    Read(String),
}

/// The status after restoring `restored` buffers with `skipped` records
/// left out.
pub open spec fn restore_message_of(restored: nat, skipped: nat) -> Seq<char> {
    "restored "@ + text::decimal(restored) + " buffer(s)"@ + if skipped > 0 {
        " ("@ + text::decimal(skipped) + " record(s) could not be restored)"@
    } else {
        Seq::empty()
    }
}

/// The text of a decode error.
pub open spec fn decode_error_text(e: persist::DecodeFailure) -> Seq<char> {
    match e {
        persist::DecodeFailure::Empty => "persisted ring is empty"@,
        persist::DecodeFailure::MissingHeader => "persisted ring is missing the 'zclip-ring' header"@,
        persist::DecodeFailure::UnsupportedVersion(v) => "persisted ring has unsupported version '"@
            + v + "'"@,
    }
}

impl RingStore {
    /// The store for a server process and plugin instance, or `None` when
    /// persistence is off (so no file is ever touched).
    pub fn new(mode: PersistMode, zellij_pid: u32, plugin_id: u32) -> (r: Option<Self>)
        ensures
            mode == PersistMode::Off ==> r is None,
            mode == PersistMode::Session ==> (r matches Some(s) && s@.dir == cache_dir_of()
                && s@.path == cache_dir_of() + seq!['/'] + persist::ring_file_name_of(zellij_pid)
                && s@.tmp == cache_dir_of() + seq!['/'] + persist::temp_file_name_of(plugin_id)),
    {
        match mode {
            PersistMode::Off => None,
            PersistMode::Session => {
                let dir = "/cache/zclip";
                let file = persist::ring_file_name(zellij_pid);
                let temp = persist::temp_file_name(plugin_id);
                let mut p: Vec<char> = Vec::new();
                text::append_str(&mut p, dir);
                p.push('/');
                text::append_str(&mut p, file.as_str());
                let mut t: Vec<char> = Vec::new();
                text::append_str(&mut t, dir);
                t.push('/');
                text::append_str(&mut t, temp.as_str());
                proof {
                    assert(p@ =~= cache_dir_of() + seq!['/'] + persist::ring_file_name_of(zellij_pid));
                    assert(t@ =~= cache_dir_of() + seq!['/'] + persist::temp_file_name_of(plugin_id));
                }
                Some(
                    RingStore {
                        dir: dir.to_owned(),
                        path: text::string_of(p.as_slice()),
                        tmp: text::string_of(t.as_slice()),
                    },
                )
            },
        }
    }

    /// The directory the files live in.
    pub fn dir(&self) -> (r: &str)
        ensures
            r@ == self@.dir,
    {
        self.dir.as_str()
    }

    /// This instance's ring file.
    pub fn path(&self) -> (r: &str)
        ensures
            r@ == self@.path,
    {
        self.path.as_str()
    }

    /// The temporary file a save writes before renaming it onto the ring
    /// file.
    pub fn tmp(&self) -> (r: &str)
        ensures
            r@ == self@.tmp,
    {
        self.tmp.as_str()
    }

    /// Whether garbage collection deletes a directory entry: another
    /// instance's ring file (by name) untouched for longer than a week.
    /// `path` and `name` are the entry's path and file name when they are
    /// valid text; `age_secs` is its age when known (a time in the future
    /// gives none).
    pub fn should_collect(&self, path: Option<&str>, name: Option<&str>, age_secs: Option<u64>) -> (b:
        bool)
        ensures
            b == ({
                &&& !(path matches Some(p) && p@ == self@.path)
                &&& name matches Some(n) && persist::ring_file_shape(n@)
                &&& age_secs matches Some(a) && a > persist::STALE_AFTER_SECS
            }),
    {
        let own = match path {
            Some(p) => text::str_eq(p, self.path.as_str()),
            None => false,
        };
        if own {
            return false;
        }
        let is_ring = match name {
            Some(n) => persist::is_ring_file(n),
            None => false,
        };
        if !is_ring {
            return false;
        }
        match age_secs {
            Some(a) => persist::is_stale(a),
            None => false,
        }
    }
}

/// The status after restoring a ring.
pub fn restore_message(restored: usize, skipped: usize) -> (s: String)
    ensures
        s@ == restore_message_of(restored as nat, skipped as nat),
{
    let mut out: Vec<char> = Vec::new();
    text::append_str(&mut out, "restored ");
    text::push_decimal(&mut out, restored as u64);
    text::append_str(&mut out, " buffer(s)");
    if skipped > 0 {
        text::append_str(&mut out, " (");
        text::push_decimal(&mut out, skipped as u64);
        text::append_str(&mut out, " record(s) could not be restored)");
    } else {
        proof {
            assert(out@ =~= out@ + Seq::<char>::empty());
        }
    }
    text::string_of(out.as_slice())
}

/// The ring a load starts with and the status it leaves: an empty ring
/// and no message when there is no file; an empty ring and the reason when
/// the file cannot be read or decoded; otherwise the decoded ring and how
/// much of it was restored.
pub fn load_ring(read: ReadOutcome, limit: usize) -> (r: (BufferRing, Option<String>))
    ensures
        match read {
            ReadOutcome::Missing => r.0@.buffers.len() == 0 && r.0@.limit == buffer::clamp_limit(limit)
                && r.0@.next_id == 0 && r.1 is None,
            ReadOutcome::Failed(e) => r.0@.buffers.len() == 0 && r.0@.limit == buffer::clamp_limit(
                limit,
            ) && r.0@.next_id == 0 && (r.1 matches Some(m) && m@ == "could not read persisted ring: "@
                + e@),
            ReadOutcome::Read(body) => match persist::decode_of(body@) {
                Ok((entries, skipped)) => r.0@ == buffer::restore_view(limit, entries) && (r.1 matches Some(
                    m,
                ) && m@ == restore_message_of(r.0@.buffers.len(), skipped)),
                Err(e) => r.0@.buffers.len() == 0 && r.0@.limit == buffer::clamp_limit(limit)
                    && r.0@.next_id == 0 && (r.1 matches Some(m) && m@
                    == "could not restore persisted ring: "@ + decode_error_text(e)),
            },
        },
{
    match read {
        ReadOutcome::Missing => (BufferRing::new(limit), None),
        ReadOutcome::Failed(e) => {
            let mut out: Vec<char> = Vec::new();
            text::append_str(&mut out, "could not read persisted ring: ");
            text::append_str(&mut out, e.as_str());
            (BufferRing::new(limit), Some(text::string_of(out.as_slice())))
        },
        ReadOutcome::Read(body) => match persist::decode(body.as_str(), limit) {
            Ok(restored) => {
                let n = restored.ring.len();
                let msg = restore_message(n, restored.skipped_records);
                (restored.ring, Some(msg))
            },
            Err(err) => {
                let detail = err.message();
                let mut out: Vec<char> = Vec::new();
                text::append_str(&mut out, "could not restore persisted ring: ");
                text::append_str(&mut out, detail.as_str());
                (BufferRing::new(limit), Some(text::string_of(out.as_slice())))
            },
        },
    }
}

/// What a save writes: nothing for an empty ring (its file is removed, so
/// a later restore does not bring back deleted buffers), otherwise the
/// encoded body.
pub fn save_body(ring: &BufferRing) -> (r: Option<String>)
    ensures
        ring@.buffers.len() == 0 ==> r is None,
        ring@.buffers.len() > 0 ==> (r matches Some(b) && b@ == persist::encoded_body(ring@.buffers)),
{
    if ring.is_empty() {
        None
    } else {
        Some(persist::encode(ring).body)
    }
}

} // verus!
