//! Domain names on the wire: length-prefixed labels closed by a zero byte,
//! or cut short by a two-byte pointer to where the name goes on.

use vstd::prelude::*;
use vstd::string::*;
use vstd::utf8::*;
use crate::errors::Errors;
use crate::raw_packet::PACKET_SIZE;
use crate::raw_packet::be16;

verus! {

/// The number of pointers at which reading a name gives up.
pub const MAX_JUMPS: usize = 5;

/// The longest label that can be encoded.
pub const MAX_LABEL_LEN: usize = 63;

/// The byte that separates labels in a dotted name.
pub const DOT: u8 = 0x2E;

/// A length byte with its two top bits set starts a pointer.
pub open spec fn is_pointer(len: u8) -> bool {
    len & 0xC0 == 0xC0
}

/// The offset that the pointer bytes `hi`, `lo` name: their low 14 bits.
pub open spec fn pointer_target(hi: u8, lo: u8) -> int {
    (be16(hi, lo) & 0x3FFF) as int
}

/// Index of the first dot in `s`, or its length if it holds none.
pub open spec fn first_dot(s: Seq<u8>) -> int
    decreases s.len(),
{
    if s.len() == 0 || s[0] == DOT {
        0
    } else {
        1 + first_dot(s.drop_first())
    }
}

/// The labels of a dotted name: the runs of bytes between its dots. A name
/// without a dot is one label, the empty name one empty label.
pub open spec fn split_labels(s: Seq<u8>) -> Seq<Seq<u8>>
    decreases s.len(),
    via split_labels_decreases
{
    let d = first_dot(s);
    if d >= s.len() {
        seq![s]
    } else {
        seq![s.subrange(0, d)] + split_labels(s.subrange(d + 1, s.len() as int))
    }
}

#[via_fn]
proof fn split_labels_decreases(s: Seq<u8>) {
    lemma_first_dot(s);
}

/// Every label can be encoded: none is longer than 63 bytes.
pub open spec fn labels_fit(labels: Seq<Seq<u8>>) -> bool {
    forall|i: int| 0 <= i < labels.len() ==> (#[trigger] labels[i]).len() <= MAX_LABEL_LEN
}

/// The labels one after the other, each behind its length byte.
pub open spec fn labels_body(labels: Seq<Seq<u8>>) -> Seq<u8>
    decreases labels.len(),
{
    if labels.len() == 0 {
        seq![]
    } else {
        seq![labels[0].len() as u8] + labels[0] + labels_body(labels.drop_first())
    }
}

/// The uncompressed wire form of a name: its labels, then a zero byte.
pub open spec fn labels_wire(labels: Seq<Seq<u8>>) -> Seq<u8> {
    labels_body(labels) + seq![0u8]
}

/// The uncompressed wire form of the dotted name `s`.
pub open spec fn name_wire(s: Seq<u8>) -> Seq<u8> {
    labels_wire(split_labels(s))
}

/// What reading a name yields: the labels met, and either the position
/// behind the closing zero byte or the reason why it was not reached.
pub struct Walk {
    pub labels: Seq<Seq<u8>>,
    pub end: Result<int, Errors>,
}

/// Reads the name that starts at `pos` in `buf`, `jumps` pointers having
/// been followed already.
///
/// A zero byte closes the name. A byte with both top bits set is the first
/// of a pointer, and reading goes on at its target; once five pointers
/// were followed, reading gives up. Any other byte is the length of the
/// label behind it. Leaving the buffer is an error.
pub open spec fn walk(buf: Seq<u8>, pos: int, jumps: int) -> Walk
    decreases MAX_JUMPS - jumps, PACKET_SIZE - pos,
{
    if jumps >= MAX_JUMPS {
        Walk { labels: seq![], end: Err(Errors::JumpCycle) }
    } else if pos < 0 || pos >= PACKET_SIZE {
        Walk { labels: seq![], end: Err(Errors::BufferOverflow) }
    } else if is_pointer(buf[pos]) {
        if pos + 1 >= PACKET_SIZE {
            Walk { labels: seq![], end: Err(Errors::BufferOverflow) }
        } else {
            walk(buf, pointer_target(buf[pos], buf[pos + 1]), jumps + 1)
        }
    } else if buf[pos] == 0 {
        Walk { labels: seq![], end: Ok(pos + 1) }
    } else if pos + buf[pos] >= PACKET_SIZE {
        Walk { labels: seq![], end: Err(Errors::BufferOverflow) }
    } else {
        let rest = walk(buf, pos + 1 + buf[pos], jumps);
        Walk {
            labels: seq![buf.subrange(pos + 1, pos + 1 + buf[pos])] + rest.labels,
            end: rest.end,
        }
    }
}

/// Position of the first pointer that reading from `pos` meets before it
/// follows any, if it meets one that lies inside the buffer.
pub open spec fn first_pointer(buf: Seq<u8>, pos: int) -> Option<int>
    decreases PACKET_SIZE - pos,
{
    if pos < 0 || pos >= PACKET_SIZE {
        None
    } else if is_pointer(buf[pos]) {
        if pos + 1 >= PACKET_SIZE {
            None
        } else {
            Some(pos)
        }
    } else if buf[pos] == 0 || pos + buf[pos] >= PACKET_SIZE {
        None
    } else {
        first_pointer(buf, pos + 1 + buf[pos])
    }
}

/// Reading from `pos` follows at least `n` pointers, each of them and each
/// label on the way lying inside the buffer.
pub open spec fn follows_pointers(buf: Seq<u8>, pos: int, n: nat) -> bool
    decreases n, PACKET_SIZE - pos,
{
    if n == 0 {
        true
    } else if pos < 0 || pos >= PACKET_SIZE {
        false
    } else if is_pointer(buf[pos]) {
        pos + 1 < PACKET_SIZE && follows_pointers(
            buf,
            pointer_target(buf[pos], buf[pos + 1]),
            (n - 1) as nat,
        )
    } else if buf[pos] == 0 || pos + buf[pos] >= PACKET_SIZE {
        false
    } else {
        follows_pointers(buf, pos + 1 + buf[pos], n)
    }
}

/// Reading from `pos` comes to a closing zero byte after at most `n`
/// pointers, without leaving the buffer.
pub open spec fn reaches_end(buf: Seq<u8>, pos: int, n: nat) -> bool
    decreases n, PACKET_SIZE - pos,
{
    if pos < 0 || pos >= PACKET_SIZE {
        false
    } else if is_pointer(buf[pos]) {
        n > 0 && pos + 1 < PACKET_SIZE && reaches_end(
            buf,
            pointer_target(buf[pos], buf[pos + 1]),
            (n - 1) as nat,
        )
    } else if buf[pos] == 0 {
        true
    } else if pos + buf[pos] >= PACKET_SIZE {
        false
    } else {
        reaches_end(buf, pos + 1 + buf[pos], n)
    }
}

/// Pointer chains, with `jumps` pointers followed already: reading gives
/// up with `JumpCycle` exactly where it comes to follow a fifth pointer,
/// and succeeds exactly where it comes to a closing zero byte before
/// that. In every other case it leaves the buffer.
pub proof fn lemma_walk_outcome(buf: Seq<u8>, pos: int, jumps: nat)
    requires
        jumps <= MAX_JUMPS,
    ensures
        walk(buf, pos, jumps as int).end == Err::<int, Errors>(Errors::JumpCycle)
            <==> follows_pointers(buf, pos, (MAX_JUMPS - jumps) as nat),
        jumps < MAX_JUMPS ==> (walk(buf, pos, jumps as int).end is Ok <==> reaches_end(
            buf,
            pos,
            (MAX_JUMPS - 1 - jumps) as nat,
        )),
        walk(buf, pos, jumps as int).end is Err ==> walk(buf, pos, jumps as int).end
            == Err::<int, Errors>(Errors::JumpCycle) || walk(buf, pos, jumps as int).end
            == Err::<int, Errors>(Errors::BufferOverflow),
    decreases MAX_JUMPS - jumps, PACKET_SIZE - pos,
{
    if jumps >= MAX_JUMPS {
    } else if pos < 0 || pos >= PACKET_SIZE {
    } else if is_pointer(buf[pos]) {
        if pos + 1 < PACKET_SIZE {
            lemma_walk_outcome(buf, pointer_target(buf[pos], buf[pos + 1]), jumps + 1);
        }
    } else if buf[pos] == 0 {
    } else if pos + buf[pos] >= PACKET_SIZE {
    } else {
        lemma_walk_outcome(buf, pos + 1 + buf[pos], jumps);
    }
}

/// Pointer chains: a name whose reading would follow five pointers or more
/// fails with `JumpCycle`, however the chain goes on; a name that comes to
/// its closing zero byte after four pointers or fewer is read.
pub proof fn lemma_pointer_chains(buf: Seq<u8>, pos: int)
    ensures
        follows_pointers(buf, pos, MAX_JUMPS as nat) <==> walk(buf, pos, 0).end == Err::<
            int,
            Errors,
        >(Errors::JumpCycle),
        reaches_end(buf, pos, (MAX_JUMPS - 1) as nat) <==> walk(buf, pos, 0).end is Ok,
{
    lemma_walk_outcome(buf, pos, 0);
}

/// Where reading ends, and where it meets its first pointer, lies inside
/// the buffer.
pub proof fn lemma_walk_bounds(buf: Seq<u8>, pos: int, jumps: int)
    ensures
        walk(buf, pos, jumps).end matches Ok(end) ==> 0 < end <= PACKET_SIZE,
        first_pointer(buf, pos) matches Some(p) ==> 0 <= p && p + 2 <= PACKET_SIZE,
        jumps == 0 && walk(buf, pos, jumps).end is Ok ==> 0 < name_cursor(buf, pos) <= PACKET_SIZE,
    decreases MAX_JUMPS - jumps, PACKET_SIZE - pos,
{
    if jumps >= MAX_JUMPS {
        lemma_first_pointer_bounds(buf, pos);
    } else if pos < 0 || pos >= PACKET_SIZE {
    } else if is_pointer(buf[pos]) {
        if pos + 1 < PACKET_SIZE {
            lemma_walk_bounds(buf, pointer_target(buf[pos], buf[pos + 1]), jumps + 1);
        }
    } else if buf[pos] == 0 {
    } else if pos + buf[pos] >= PACKET_SIZE {
    } else {
        lemma_walk_bounds(buf, pos + 1 + buf[pos], jumps);
    }
}

/// The first pointer that reading meets lies inside the buffer.
pub proof fn lemma_first_pointer_bounds(buf: Seq<u8>, pos: int)
    ensures
        first_pointer(buf, pos) matches Some(p) ==> 0 <= p && p + 2 <= PACKET_SIZE,
    decreases PACKET_SIZE - pos,
{
    if pos < 0 || pos >= PACKET_SIZE {
    } else if is_pointer(buf[pos]) {
    } else if buf[pos] == 0 || pos + buf[pos] >= PACKET_SIZE {
    } else {
        lemma_first_pointer_bounds(buf, pos + 1 + buf[pos]);
    }
}

/// Where the cursor stands after a name was read from `pos`: behind the
/// first pointer, if one was followed; else behind the closing zero byte,
/// if it was reached; else at `pos`.
pub open spec fn name_cursor(buf: Seq<u8>, pos: int) -> int {
    match first_pointer(buf, pos) {
        Some(p) => p + 2,
        None => match walk(buf, pos, 0).end {
            Ok(end) => end,
            Err(_) => pos,
        },
    }
}

/// What `String::from_utf8_lossy` makes of bytes that are no valid UTF-8.
pub uninterp spec fn lossy_repaired(bytes: Seq<u8>) -> Seq<char>;

/// What `str::to_lowercase` makes of a text.
pub uninterp spec fn unicode_lowercase(text: Seq<char>) -> Seq<char>;

/// The text of `bytes`: decoded where they are valid UTF-8, repaired where
/// they are not.
pub open spec fn utf8_text(bytes: Seq<u8>) -> Seq<char> {
    if valid_utf8(bytes) {
        decode_utf8(bytes)
    } else {
        lossy_repaired(bytes)
    }
}

/// Every byte is ASCII.
pub open spec fn ascii_bytes(bytes: Seq<u8>) -> bool {
    forall|i: int| 0 <= i < bytes.len() ==> #[trigger] bytes[i] < 0x80
}

/// An ASCII capital as its small letter, any other byte as itself.
pub open spec fn lower_byte(b: u8) -> u8 {
    if 0x41 <= b <= 0x5A {
        (b + 0x20) as u8
    } else {
        b
    }
}

/// The bytes with every ASCII capital as its small letter.
pub open spec fn lower_bytes(bytes: Seq<u8>) -> Seq<u8> {
    Seq::new(bytes.len(), |i: int| lower_byte(bytes[i]))
}

/// ASCII bytes as text, one character for each byte.
pub open spec fn ascii_text(bytes: Seq<u8>) -> Seq<char> {
    Seq::new(bytes.len(), |i: int| bytes[i] as char)
}

/// A label as it is kept in memory, in lower case. An ASCII label is
/// lower-cased byte by byte; any other is taken as UTF-8 text and
/// lower-cased as such.
pub open spec fn label_text(label: Seq<u8>) -> Seq<char> {
    if ascii_bytes(label) {
        ascii_text(lower_bytes(label))
    } else {
        unicode_lowercase(utf8_text(label))
    }
}

/// The labels as text, joined by dots.
pub open spec fn join_text(labels: Seq<Seq<u8>>) -> Seq<char>
    decreases labels.len(),
{
    if labels.len() == 0 {
        seq![]
    } else if labels.len() == 1 {
        label_text(labels[0])
    } else {
        join_text(labels.drop_last()) + seq!['.'] + label_text(labels.last())
    }
}

/// Calls `String::from_utf8_lossy`. Valid UTF-8 comes back as the text it
/// encodes; of anything else only the name of the result is known.
#[verifier::external_body]
fn utf8_lossy(bytes: &[u8]) -> (text: String)
    ensures
        valid_utf8(bytes@) ==> text@ == decode_utf8(bytes@),
        !valid_utf8(bytes@) ==> text@ == lossy_repaired(bytes@),
{
    String::from_utf8_lossy(bytes).into_owned()
}

/// Calls `str::to_lowercase`. Only the name of the result is known.
#[verifier::external_body]
fn lowercase(text: &str) -> (lower: String)
    ensures
        lower@ == unicode_lowercase(text@),
{
    text.to_lowercase()
}

/// ASCII bytes are valid UTF-8 and encode their own text.
pub proof fn lemma_ascii_decodes(bytes: Seq<u8>)
    requires
        ascii_bytes(bytes),
    ensures
        valid_utf8(bytes),
        decode_utf8(bytes) == ascii_text(bytes),
{
    let chars = ascii_text(bytes);
    assert forall|i: int| 0 <= i < chars.len() implies '\0' <= #[trigger] chars[i] <= '\u{7f}' by {
        assert(bytes[i] < 0x80);
    }
    is_ascii_chars_encode_utf8(chars);
    assert forall|i: int| 0 <= i < bytes.len() implies encode_utf8(chars)[i] == bytes[i] by {
        assert(bytes[i] < 0x80);
        assert(chars[i] as u8 == bytes[i]);
    }
    assert(encode_utf8(chars) =~= bytes);
    encode_utf8_valid_utf8(chars);
    encode_utf8_decode_utf8(chars);
}

/// The text of a label in lower case.
///
/// A label of ASCII bytes is lower-cased here, byte by byte. Any other
/// label goes through `String::from_utf8_lossy` and `str::to_lowercase`.
pub fn label_string(label: &[u8]) -> (text: String)
    ensures
        text@ == label_text(label@),
{
    let n: usize = label.len();
    let mut lowered: Vec<u8> = Vec::new();
    let mut ascii = true;
    let mut i: usize = 0;
    while i < n
        invariant
            i <= n,
            n == label@.len(),
            lowered@ == lower_bytes(label@.subrange(0, i as int)),
            ascii <==> ascii_bytes(label@.subrange(0, i as int)),
        decreases n - i,
    {
        let b: u8 = label[i];
        let ghost before = label@.subrange(0, i as int);
        let ghost after = label@.subrange(0, i + 1);
        proof {
            assert(after =~= before.push(b));
            assert forall|k: int| 0 <= k < before.len() implies #[trigger] before[k] == after[k] by {}
            if b < 0x80 && ascii_bytes(before) {
                assert forall|k: int| 0 <= k < after.len() implies #[trigger] after[k] < 0x80 by {
                    if k < before.len() {
                        assert(before[k] < 0x80);
                    }
                }
            }
            if ascii_bytes(after) {
                assert(after[i as int] < 0x80);
                assert forall|k: int| 0 <= k < before.len() implies #[trigger] before[k]
                    < 0x80 by {
                    assert(after[k] < 0x80);
                }
            }
        }
        if b >= 0x80 {
            ascii = false;
        }
        if 0x41 <= b && b <= 0x5A {
            lowered.push(b + 0x20);
        } else {
            lowered.push(b);
        }
        i += 1;
        assert(lowered@ =~= lower_bytes(after));
    }
    assert(label@.subrange(0, n as int) =~= label@);
    if ascii {
        proof {
            assert forall|k: int| 0 <= k < lowered@.len() implies #[trigger] lowered@[k] < 0x80 by {
                assert(label@[k] < 0x80);
            }
            lemma_ascii_decodes(lowered@);
        }
        utf8_lossy(lowered.as_slice())
    } else {
        let raw = utf8_lossy(label);
        lowercase(raw.as_str())
    }
}

/// `first_dot` is an index into `s` or its length.
pub proof fn lemma_first_dot(s: Seq<u8>)
    ensures
        0 <= first_dot(s) <= s.len(),
        first_dot(s) < s.len() ==> s[first_dot(s)] == DOT,
        forall|i: int| 0 <= i < first_dot(s) ==> s[i] != DOT,
    decreases s.len(),
{
    if s.len() == 0 || s[0] == DOT {
    } else {
        let t = s.drop_first();
        lemma_first_dot(t);
        assert forall|i: int| 0 <= i < first_dot(s) implies s[i] != DOT by {
            if i > 0 {
                assert(s[i] == t[i - 1]);
            }
        }
    }
}

/// The first dot is where a dot-free prefix ends.
pub proof fn lemma_first_dot_is(s: Seq<u8>, k: int)
    requires
        0 <= k <= s.len(),
        forall|i: int| 0 <= i < k ==> s[i] != DOT,
        k < s.len() ==> s[k] == DOT,
    ensures
        first_dot(s) == k,
    decreases s.len(),
{
    if s.len() == 0 || s[0] == DOT {
    } else {
        let t = s.drop_first();
        assert forall|i: int| 0 <= i < k - 1 implies t[i] != DOT by {
            assert(t[i] == s[i + 1]);
        }
        lemma_first_dot_is(t, k - 1);
    }
}

/// Appending a label appends its length byte and its bytes.
pub proof fn lemma_labels_body_push(labels: Seq<Seq<u8>>, label: Seq<u8>)
    ensures
        labels_body(labels.push(label)) == labels_body(labels) + seq![label.len() as u8] + label,
    decreases labels.len(),
{
    if labels.len() == 0 {
        assert(labels.push(label).drop_first() =~= Seq::<Seq<u8>>::empty());
        assert(labels.push(label)[0] == label);
        assert(labels_body(Seq::<Seq<u8>>::empty()) =~= Seq::<u8>::empty());
        assert(labels_body(labels.push(label)) =~= labels_body(labels) + seq![label.len() as u8]
            + label);
    } else {
        assert(labels.push(label).drop_first() =~= labels.drop_first().push(label));
        lemma_labels_body_push(labels.drop_first(), label);
        assert(labels_body(labels.push(label)) =~= labels_body(labels) + seq![label.len() as u8]
            + label);
    }
}

/// The wire form of the dotted name `name`, if each of its labels can be
/// encoded.
pub fn encode_name(name: &[u8]) -> (r: Option<Vec<u8>>)
    ensures
        labels_fit(split_labels(name@)) ==> (r matches Some(wire) && wire@ == name_wire(name@)),
        !labels_fit(split_labels(name@)) ==> r is None,
{
    let n: usize = name.len();
    let mut wire: Vec<u8> = Vec::new();
    let mut start: usize = 0;
    let ghost mut done: Seq<Seq<u8>> = seq![];
    proof {
        assert(name@.subrange(0, n as int) =~= name@);
        assert(done + split_labels(name@) =~= split_labels(name@));
    }
    loop
        invariant
            n == name@.len(),
            start <= n,
            split_labels(name@) == done + split_labels(name@.subrange(start as int, n as int)),
            labels_fit(done),
            wire@ == labels_body(done),
        decreases n - start,
    {
        let ghost rest = name@.subrange(start as int, n as int);
        let mut end: usize = start;
        while end < n && name[end] != DOT
            invariant
                start <= end <= n,
                n == name@.len(),
                forall|i: int| start <= i < end ==> name@[i] != DOT,
            decreases n - end,
        {
            end += 1;
        }
        let ghost label = name@.subrange(start as int, end as int);
        proof {
            assert forall|i: int| 0 <= i < end - start implies rest[i] != DOT by {
                assert(rest[i] == name@[start + i]);
            }
            lemma_first_dot_is(rest, end - start);
            assert(rest.subrange(0, end - start) =~= label);
            if end < n {
                assert(rest.subrange(end - start + 1, rest.len() as int) =~= name@.subrange(
                    end + 1,
                    n as int,
                ));
                assert(split_labels(name@) =~= done.push(label) + split_labels(
                    name@.subrange(end + 1, n as int),
                ));
            } else {
                assert(rest =~= label);
                assert(split_labels(name@) =~= done.push(label));
            }
        }
        if end - start > MAX_LABEL_LEN {
            proof {
                let labels = split_labels(name@);
                assert(labels[done.len() as int] == label);
            }
            return None;
        }
        wire.push((end - start) as u8);
        let mut i: usize = start;
        while i < end
            invariant
                start <= i <= end <= n,
                n == name@.len(),
                wire@ == labels_body(done) + seq![(end - start) as u8] + name@.subrange(
                    start as int,
                    i as int,
                ),
            decreases end - i,
        {
            wire.push(name[i]);
            i += 1;
            assert(name@.subrange(start as int, i as int) =~= name@.subrange(
                start as int,
                i - 1,
            ).push(name@[i - 1]));
        }
        proof {
            lemma_labels_body_push(done, label);
            assert(labels_fit(done.push(label)));
            done = done.push(label);
        }
        if end == n {
            wire.push(0);
            return Some(wire);
        }
        start = end + 1;
    }
}

} // verus!
