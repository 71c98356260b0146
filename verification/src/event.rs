//! Process events as the kernel-side tracepoints record them, the decoding of
//! the packed helper results that fill them, and the decoding of their
//! NUL-terminated byte fields.
use vstd::prelude::*;
use vstd::utf8::{decode_utf8, valid_utf8};

verus! {

/// The kind of a process event.
#[derive(Debug, Clone, Copy, PartialEq, Eq, Structural)]
pub enum EventType {
    Exec,
    Exit,
    Fork,
}

/// The number that stands for each kind in a kernel record: `Exec` is 1,
/// `Exit` is 2, `Fork` is 3.
pub open spec fn event_code(t: EventType) -> u32 {
    match t {
        EventType::Exec => 1,
        EventType::Exit => 2,
        EventType::Fork => 3,
    }
}

/// The kind that a record number stands for, if any.
pub open spec fn event_from_code(code: u32) -> Option<EventType> {
    if code == 1 {
        Some(EventType::Exec)
    } else if code == 2 {
        Some(EventType::Exit)
    } else if code == 3 {
        Some(EventType::Fork)
    } else {
        None
    }
}

impl EventType {
    /// The number that identifies this kind in a kernel record.
    pub fn code(&self) -> (c: u32)
        ensures
            c == event_code(*self),
    {
        match self {
            EventType::Exec => 1,
            EventType::Exit => 2,
            EventType::Fork => 3,
        }
    }

    /// The kind that a kernel record number stands for.
    pub fn from_code(code: u32) -> (t: Option<EventType>)
        ensures
            t == event_from_code(code),
    {
        if code == 1 {
            Some(EventType::Exec)
        } else if code == 2 {
            Some(EventType::Exit)
        } else if code == 3 {
            Some(EventType::Fork)
        } else {
            None
        }
    }
}

/// Reading a kind back from its number gives the kind, and only the numbers
/// of kinds are read as kinds.
pub proof fn event_codes_round_trip(t: EventType, code: u32)
    ensures
        event_from_code(event_code(t)) == Some(t),
        event_from_code(code) matches Some(k) ==> event_code(k) == code,
{
}

/// One process event, as the kernel side records it.
#[derive(Debug, Clone, Copy)]
pub struct ProcessEvent {
    pub event_type: EventType,
    pub pid: u32,
    pub tgid: u32,
    pub parent_pid: u32,
    pub uid: u32,
    pub comm: [u8; 16],
    pub filename: [u8; 256],
    pub filename_len: u32,
}

/// The low 32 bits of `x`.
pub open spec fn low_word(x: u64) -> u32 {
    (x % 0x1_0000_0000) as u32
}

/// The high 32 bits of `x`.
pub open spec fn high_word(x: u64) -> u32 {
    (x / 0x1_0000_0000) as u32
}

/// Splits the packed result of `bpf_get_current_pid_tgid` into the thread
/// id (low half) and the thread-group id (high half).
pub fn split_pid_tgid(pid_tgid: u64) -> (r: (u32, u32))
    ensures
        r.0 == low_word(pid_tgid),
        r.1 == high_word(pid_tgid),
{
    let pid = (pid_tgid & 0xFFFF_FFFF) as u32;
    let tgid = (pid_tgid >> 32u64) as u32;
    assert((pid_tgid & 0xFFFF_FFFF) as u32 == (pid_tgid % 0x1_0000_0000) as u32) by (bit_vector);
    assert((pid_tgid >> 32u64) as u32 == (pid_tgid / 0x1_0000_0000) as u32) by (bit_vector);
    (pid, tgid)
}

/// The user id in the packed result of `bpf_get_current_uid_gid` (its low
/// half).
pub fn uid_from_uid_gid(uid_gid: u64) -> (uid: u32)
    ensures
        uid == low_word(uid_gid),
{
    assert((uid_gid & 0xFFFF_FFFF) as u32 == (uid_gid % 0x1_0000_0000) as u32) by (bit_vector);
    (uid_gid & 0xFFFF_FFFF) as u32
}

/// The offset that a tracepoint `__data_loc` field holds (its low 16 bits;
/// the high 16 bits are the length).
pub fn data_loc_offset(data_loc: u32) -> (offset: usize)
    ensures
        offset == data_loc % 0x1_0000,
{
    let low = data_loc & 0xFFFF;
    assert(data_loc & 0xFFFF == data_loc % 0x1_0000) by (bit_vector);
    low as usize
}

/// The record of an execve: pid and tgid from the packed pid/tgid, the uid
/// from the packed uid/gid, no parent (the parent is resolved from the
/// process tree built by fork events), and the command name and file name
/// as read.
pub fn exec_event(
    pid_tgid: u64,
    uid_gid: u64,
    comm: [u8; 16],
    filename: [u8; 256],
    filename_len: u32,
) -> (e: ProcessEvent)
    ensures
        e.event_type == EventType::Exec,
        e.pid == low_word(pid_tgid),
        e.tgid == high_word(pid_tgid),
        e.parent_pid == 0,
        e.uid == low_word(uid_gid),
        e.comm == comm,
        e.filename == filename,
        e.filename_len == filename_len,
{
    let (pid, tgid) = split_pid_tgid(pid_tgid);
    let uid = uid_from_uid_gid(uid_gid);
    ProcessEvent {
        event_type: EventType::Exec,
        pid,
        tgid,
        parent_pid: 0,
        uid,
        comm,
        filename,
        filename_len,
    }
}

/// The record of a fork: the child is its own thread-group leader, it
/// inherits the uid of the parent in whose context the fork runs, and no
/// binary has been executed yet.
pub fn fork_event(parent_pid: i32, child_pid: i32, uid_gid: u64, child_comm: [u8; 16]) -> (e:
    ProcessEvent)
    ensures
        e.event_type == EventType::Fork,
        e.pid == child_pid as u32,
        e.tgid == child_pid as u32,
        e.parent_pid == parent_pid as u32,
        e.uid == low_word(uid_gid),
        e.comm == child_comm,
        forall|i: int| 0 <= i < 256 ==> e.filename@[i] == 0,
        e.filename_len == 0,
{
    let uid = uid_from_uid_gid(uid_gid);
    ProcessEvent {
        event_type: EventType::Fork,
        pid: child_pid as u32,
        tgid: child_pid as u32,
        parent_pid: parent_pid as u32,
        uid,
        comm: child_comm,
        filename: [0u8; 256],
        filename_len: 0,
    }
}

/// The value a tracepoint program returns: its result, or its error code
/// truncated to 32 bits.
pub fn tracepoint_status(r: Result<u32, i64>) -> (status: u32)
    ensures
        status == match r {
            Ok(v) => v,
            Err(e) => e as u32,
        },
{
    match r {
        Ok(v) => v,
        Err(e) => e as u32,
    }
}

/// What `String::from_utf8_lossy` makes of `bytes`.
pub uninterp spec fn utf8_lossy(bytes: Seq<u8>) -> Seq<char>;

/// `String::from_utf8_lossy`: its result is named `utf8_lossy`; for valid
/// UTF-8 it is the decoded text (std: invalid sequences are replaced, valid
/// text is returned unchanged). What it makes of invalid sequences is left
/// to the name.
#[verifier::external_body]
fn string_from_utf8_lossy(bytes: &[u8]) -> (s: String)
    ensures
        s@ == utf8_lossy(bytes@),
        valid_utf8(bytes@) ==> s@ == decode_utf8(bytes@),
{
    String::from_utf8_lossy(bytes).into_owned()
}

/// Index of the first zero byte, or `bytes.len()`.
pub open spec fn nul_position(bytes: Seq<u8>) -> int
    decreases bytes.len(),
{
    if bytes.len() == 0 {
        0
    } else if bytes[0] == 0 {
        0
    } else {
        1 + nul_position(bytes.drop_first())
    }
}

/// `nul_position` is the first zero byte, or the length.
pub proof fn lemma_nul_position(bytes: Seq<u8>)
    ensures
        0 <= nul_position(bytes) <= bytes.len(),
        nul_position(bytes) < bytes.len() ==> bytes[nul_position(bytes)] == 0,
        forall|j: int| 0 <= j < nul_position(bytes) ==> bytes[j] != 0,
    decreases bytes.len(),
{
    if bytes.len() > 0 && bytes[0] != 0 {
        lemma_nul_position(bytes.drop_first());
        assert forall|j: int| 0 <= j < nul_position(bytes) implies bytes[j] != 0 by {
            if j > 0 {
                assert(bytes[j] == bytes.drop_first()[j - 1]);
            }
        }
    }
}

/// The text of a NUL-terminated field: the bytes before the first NUL,
/// decoded lossily; a field without NUL reads as the empty text.
pub open spec fn c_string_text(bytes: Seq<u8>) -> Seq<char> {
    let n = nul_position(bytes);
    if n < bytes.len() {
        utf8_lossy(bytes.take(n))
    } else {
        Seq::empty()
    }
}

/// Decodes a NUL-terminated field of a kernel record.
pub fn decode_c_string(bytes: &[u8]) -> (s: String)
    ensures
        s@ == c_string_text(bytes@),
        forall|n: int|
            0 <= n < bytes@.len() && #[trigger] bytes@[n] == 0 && (forall|j: int|
                0 <= j < n ==> bytes@[j] != 0) ==> s@ == utf8_lossy(bytes@.take(n)) && (
            valid_utf8(bytes@.take(n)) ==> s@ == decode_utf8(bytes@.take(n))),
        (forall|j: int| 0 <= j < bytes@.len() ==> bytes@[j] != 0) ==> s@.len() == 0,
{
    let mut i: usize = 0;
    while i < bytes.len() && bytes[i] != 0
        invariant
            i <= bytes.len(),
            forall|j: int| 0 <= j < i ==> bytes@[j] != 0,
        decreases bytes.len() - i,
    {
        i = i + 1;
    }
    proof {
        lemma_nul_position(bytes@);
        let p = nul_position(bytes@);
        if p < i {
            assert(bytes@[p] == 0);
        }
    }
    if i == bytes.len() {
        return String::new();
    }
    let mut text: Vec<u8> = Vec::new();
    let mut k: usize = 0;
    while k < i
        invariant
            k <= i < bytes.len(),
            text@ == bytes@.take(k as int),
        decreases i - k,
    {
        text.push(bytes[k]);
        k = k + 1;
        assert(text@ =~= bytes@.take(k as int));
    }
    let s = string_from_utf8_lossy(text.as_slice());
    proof {
        assert forall|n: int|
            0 <= n < bytes@.len() && #[trigger] bytes@[n] == 0 && (forall|j: int|
                0 <= j < n ==> bytes@[j] != 0) implies n == i by {
            if n < i {
                assert(bytes@[n] != 0);
            }
            if i < n {
                assert(bytes@[i as int] != 0);
            }
        }
    }
    s
}

/// The text of a NUL-terminated field is the decoding of every byte before
/// its first NUL, and nothing after it; a field without NUL reads as the
/// empty text.
pub proof fn c_strings_keep_every_byte_before_the_nul(bytes: Seq<u8>, n: int)
    ensures
        0 <= n < bytes.len() && bytes[n] == 0 && (forall|j: int| 0 <= j < n ==> bytes[j] != 0)
            ==> c_string_text(bytes) == utf8_lossy(bytes.take(n)),
        (forall|j: int| 0 <= j < bytes.len() ==> bytes[j] != 0) ==> c_string_text(bytes).len()
            == 0,
{
    lemma_nul_position(bytes);
    let p = nul_position(bytes);
    if 0 <= n < bytes.len() && bytes[n] == 0 && (forall|j: int| 0 <= j < n ==> bytes[j] != 0) {
        if p < n {
            assert(bytes[p] != 0);
        }
        if n < p {
            assert(bytes[n] != 0);
        }
    }
    if forall|j: int| 0 <= j < bytes.len() ==> bytes[j] != 0 {
        if p < bytes.len() {
            assert(bytes[p] != 0);
        }
    }
}

/// The size in bytes of a kernel record: five 32-bit words, the 16-byte
/// command name, the 256-byte file name and the file name length.
pub const RECORD_SIZE: usize = 296;

/// The 32-bit word stored at `off` in `b`, in the given byte order.
pub open spec fn word_at(b: Seq<u8>, off: int, little_endian: bool) -> u32 {
    if little_endian {
        (b[off] as u32) | ((b[off + 1] as u32) << 8u32) | ((b[off + 2] as u32) << 16u32) | ((
        b[off + 3] as u32) << 24u32)
    } else {
        (b[off + 3] as u32) | ((b[off + 2] as u32) << 8u32) | ((b[off + 1] as u32) << 16u32) | ((
        b[off] as u32) << 24u32)
    }
}

/// The four bytes of `w`, in the given byte order.
pub open spec fn word_bytes(w: u32, little_endian: bool) -> Seq<u8> {
    let b0 = (w & 0xff) as u8;
    let b1 = ((w >> 8u32) & 0xff) as u8;
    let b2 = ((w >> 16u32) & 0xff) as u8;
    let b3 = ((w >> 24u32) & 0xff) as u8;
    if little_endian {
        seq![b0, b1, b2, b3]
    } else {
        seq![b3, b2, b1, b0]
    }
}

/// The bytes of the kernel record of `e`: kind, pid, tgid, parent pid, uid,
/// command name, file name, file name length.
pub open spec fn record_bytes(e: ProcessEvent, little_endian: bool) -> Seq<u8> {
    word_bytes(event_code(e.event_type), little_endian) + word_bytes(e.pid, little_endian)
        + word_bytes(e.tgid, little_endian) + word_bytes(e.parent_pid, little_endian) + word_bytes(
        e.uid,
        little_endian,
    ) + e.comm@ + e.filename@ + word_bytes(e.filename_len, little_endian)
}

/// `e` is what the record `b` holds.
pub open spec fn holds_record(b: Seq<u8>, little_endian: bool, e: ProcessEvent) -> bool {
    &&& event_from_code(word_at(b, 0, little_endian)) == Some(e.event_type)
    &&& e.pid == word_at(b, 4, little_endian)
    &&& e.tgid == word_at(b, 8, little_endian)
    &&& e.parent_pid == word_at(b, 12, little_endian)
    &&& e.uid == word_at(b, 16, little_endian)
    &&& e.comm@ == b.subrange(20, 36)
    &&& e.filename@ == b.subrange(36, 292)
    &&& e.filename_len == word_at(b, 292, little_endian)
}

fn read_word(b: &[u8], off: usize, little_endian: bool) -> (w: u32)
    requires
        off + 4 <= b@.len(),
    ensures
        w == word_at(b@, off as int, little_endian),
{
    let b0 = b[off] as u32;
    let b1 = b[off + 1] as u32;
    let b2 = b[off + 2] as u32;
    let b3 = b[off + 3] as u32;
    if little_endian {
        b0 | (b1 << 8u32) | (b2 << 16u32) | (b3 << 24u32)
    } else {
        b3 | (b2 << 8u32) | (b1 << 16u32) | (b0 << 24u32)
    }
}

fn push_word(out: &mut Vec<u8>, w: u32, little_endian: bool)
    ensures
        final(out)@ == old(out)@ + word_bytes(w, little_endian),
{
    let b0 = (w & 0xff) as u8;
    let b1 = ((w >> 8u32) & 0xff) as u8;
    let b2 = ((w >> 16u32) & 0xff) as u8;
    let b3 = ((w >> 24u32) & 0xff) as u8;
    if little_endian {
        out.push(b0);
        out.push(b1);
        out.push(b2);
        out.push(b3);
    } else {
        out.push(b3);
        out.push(b2);
        out.push(b1);
        out.push(b0);
    }
    assert(out@ =~= old(out)@ + word_bytes(w, little_endian));
}

impl ProcessEvent {
    /// The event that a kernel record holds; `None` when the record is
    /// shorter than `RECORD_SIZE` or its kind is not a known one.
    pub fn from_record(b: &[u8], little_endian: bool) -> (e: Option<ProcessEvent>)
        ensures
            match e {
                Some(ev) => b@.len() >= RECORD_SIZE && holds_record(b@, little_endian, ev),
                None => b@.len() < RECORD_SIZE || event_from_code(word_at(b@, 0, little_endian))
                    is None,
            },
            forall|w: ProcessEvent|
                #[trigger] record_bytes(w, little_endian) == b@ ==> (e matches Some(ev)
                    && same_event(ev, w)),
    {
        proof {
            assert forall|w: ProcessEvent| #[trigger] record_bytes(w, little_endian) == b@ implies (
            holds_record(b@, little_endian, w) && b@.len() == RECORD_SIZE) by {
                records_round_trip(w, little_endian);
            }
        }
        if b.len() < RECORD_SIZE {
            return None;
        }
        let code = read_word(b, 0, little_endian);
        let event_type = match EventType::from_code(code) {
            Some(t) => t,
            None => return None,
        };
        let mut comm = [0u8; 16];
        let mut i: usize = 0;
        while i < 16
            invariant
                i <= 16,
                b@.len() >= RECORD_SIZE,
                forall|j: int| 0 <= j < i ==> comm@[j] == b@[20 + j],
            decreases 16 - i,
        {
            comm[i] = b[20 + i];
            i = i + 1;
        }
        let mut filename = [0u8; 256];
        let mut k: usize = 0;
        while k < 256
            invariant
                k <= 256,
                b@.len() >= RECORD_SIZE,
                forall|j: int| 0 <= j < k ==> filename@[j] == b@[36 + j],
            decreases 256 - k,
        {
            filename[k] = b[36 + k];
            k = k + 1;
        }
        assert(comm@ =~= b@.subrange(20, 36));
        assert(filename@ =~= b@.subrange(36, 292));
        let ev = ProcessEvent {
            event_type,
            pid: read_word(b, 4, little_endian),
            tgid: read_word(b, 8, little_endian),
            parent_pid: read_word(b, 12, little_endian),
            uid: read_word(b, 16, little_endian),
            comm,
            filename,
            filename_len: read_word(b, 292, little_endian),
        };
        proof {
            assert forall|w: ProcessEvent| #[trigger]
                record_bytes(w, little_endian) == b@ implies same_event(ev, w) by {
                written_records_read_back_exactly(w, ev, little_endian);
            }
        }
        Some(ev)
    }

    /// The kernel record of this event, as the tracepoints write it.
    pub fn to_record(&self, little_endian: bool) -> (b: Vec<u8>)
        ensures
            b@ == record_bytes(*self, little_endian),
            b@.len() == RECORD_SIZE,
    {
        let mut out: Vec<u8> = Vec::new();
        push_word(&mut out, self.event_type.code(), little_endian);
        push_word(&mut out, self.pid, little_endian);
        push_word(&mut out, self.tgid, little_endian);
        push_word(&mut out, self.parent_pid, little_endian);
        push_word(&mut out, self.uid, little_endian);
        let ghost head = out@;
        let mut i: usize = 0;
        while i < 16
            invariant
                i <= 16,
                out@ == head + self.comm@.take(i as int),
            decreases 16 - i,
        {
            out.push(self.comm[i]);
            i = i + 1;
            assert(out@ =~= head + self.comm@.take(i as int));
        }
        let ghost middle = out@;
        let mut k: usize = 0;
        while k < 256
            invariant
                k <= 256,
                out@ == middle + self.filename@.take(k as int),
            decreases 256 - k,
        {
            out.push(self.filename[k]);
            k = k + 1;
            assert(out@ =~= middle + self.filename@.take(k as int));
        }
        push_word(&mut out, self.filename_len, little_endian);
        assert(self.comm@.take(16) =~= self.comm@);
        assert(self.filename@.take(256) =~= self.filename@);
        out
    }
}

/// Reading back the word bytes of `w` gives `w`.
pub proof fn lemma_word_round_trip(w: u32, little_endian: bool)
    ensures
        word_at(word_bytes(w, little_endian), 0, little_endian) == w,
{
    let b0 = (w & 0xff) as u8;
    let b1 = ((w >> 8u32) & 0xff) as u8;
    let b2 = ((w >> 16u32) & 0xff) as u8;
    let b3 = ((w >> 24u32) & 0xff) as u8;
    assert((b0 as u32) | ((b1 as u32) << 8u32) | ((b2 as u32) << 16u32) | ((b3 as u32) << 24u32)
        == w) by (bit_vector)
        requires
            b0 == (w & 0xff) as u8,
            b1 == ((w >> 8u32) & 0xff) as u8,
            b2 == ((w >> 16u32) & 0xff) as u8,
            b3 == ((w >> 24u32) & 0xff) as u8,
    ;
}

/// Two events with the same fields.
pub open spec fn same_event(a: ProcessEvent, b: ProcessEvent) -> bool {
    &&& a.event_type == b.event_type
    &&& a.pid == b.pid
    &&& a.tgid == b.tgid
    &&& a.parent_pid == b.parent_pid
    &&& a.uid == b.uid
    &&& a.comm@ == b.comm@
    &&& a.filename@ == b.filename@
    &&& a.filename_len == b.filename_len
}

/// Whatever event a written record is read as is the event that was
/// written, field for field: the kind, every id (the parent pid included),
/// the names and the name length.
pub proof fn written_records_read_back_exactly(
    written: ProcessEvent,
    read: ProcessEvent,
    little_endian: bool,
)
    requires
        holds_record(record_bytes(written, little_endian), little_endian, read),
    ensures
        same_event(read, written),
{
    records_round_trip(written, little_endian);
}

/// A kernel record read back gives the event that was written: the
/// userspace reader and the tracepoints agree on the layout.
pub proof fn records_round_trip(e: ProcessEvent, little_endian: bool)
    ensures
        record_bytes(e, little_endian).len() == RECORD_SIZE,
        holds_record(record_bytes(e, little_endian), little_endian, e),
{
    let b = record_bytes(e, little_endian);
    let le = little_endian;
    lemma_word_round_trip(event_code(e.event_type), le);
    lemma_word_round_trip(e.pid, le);
    lemma_word_round_trip(e.tgid, le);
    lemma_word_round_trip(e.parent_pid, le);
    lemma_word_round_trip(e.uid, le);
    lemma_word_round_trip(e.filename_len, le);
    assert(b.subrange(0, 4) =~= word_bytes(event_code(e.event_type), le));
    assert(b.subrange(4, 8) =~= word_bytes(e.pid, le));
    assert(b.subrange(8, 12) =~= word_bytes(e.tgid, le));
    assert(b.subrange(12, 16) =~= word_bytes(e.parent_pid, le));
    assert(b.subrange(16, 20) =~= word_bytes(e.uid, le));
    assert(b.subrange(292, 296) =~= word_bytes(e.filename_len, le));
    assert(b.subrange(20, 36) =~= e.comm@);
    assert(b.subrange(36, 292) =~= e.filename@);
    assert(word_at(b, 0, le) == word_at(b.subrange(0, 4), 0, le));
    assert(word_at(b, 4, le) == word_at(b.subrange(4, 8), 0, le));
    assert(word_at(b, 8, le) == word_at(b.subrange(8, 12), 0, le));
    assert(word_at(b, 12, le) == word_at(b.subrange(12, 16), 0, le));
    assert(word_at(b, 16, le) == word_at(b.subrange(16, 20), 0, le));
    assert(word_at(b, 292, le) == word_at(b.subrange(292, 296), 0, le));
}

} // verus!
