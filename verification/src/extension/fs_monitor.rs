//! What a filesystem monitor knows of the entries of an index.

use vstd::prelude::*;

use crate::bitmap::bitmap_from_bits;
use crate::bitmap::bitmap_from_bytes;
use crate::bitmap::bitmap_parsed;
use crate::bitmap::bitmap_set_bits;
use crate::bitmap::bitmap_view;
use crate::bitmap::is_ascending;
use crate::bitmap::law_bitmap_is_written_as_read;
use crate::bitmap::law_bitmap_read_gives_back_written;
use crate::bitmap::lemma_literal_bitmap_is_encodable;
use crate::bitmap::literal_bitmap;
use crate::bitmap::true_positions;
use crate::bitmap::write_bitmap;
use crate::bitmap::Bitmap;
use crate::extension::framed;
use crate::extension::write_extension;
use crate::extension::Signature;
use crate::extension::WriteError;
use crate::util::law_terminated_string_is_found;
use crate::util::law_u32_read_gives_back_written;
use crate::util::law_u64_read_gives_back_written;
use crate::util::lemma_split_at_byte_parts;
use crate::util::lemma_u32_bytes_round_trip;
use crate::util::lemma_u64_bytes_round_trip;
use crate::util::owned;
use crate::util::read_u32;
use crate::util::read_u64;
use crate::util::split_at_byte;
use crate::util::split_at_byte_exclusive;
use crate::util::split_at_checked;
use crate::util::u32_be_bytes;
use crate::util::u32_be_value;
use crate::util::u32_parsed;
use crate::util::u64_be_bytes;
use crate::util::u64_be_value;
use crate::util::u64_parsed;
use crate::util::write_bytes;
use crate::util::write_u32;
use crate::util::write_u64;

verus! {

/// `FSMN`, the signature for filesystem monitor extensions
pub const SIGNATURE: Signature = [0x46, 0x53, 0x4d, 0x4e];

/// The point in time up to which a filesystem monitor was asked for changes.
pub enum Token {
    /// A timestamp.
    V1 {
        /// Nanoseconds since the unix epoch.
        nanos_since_1970: u64,
    },
    /// Something that only the filesystem monitor can interpret.
    V2 {
        /// The opaque bytes.
        token: Vec<u8>,
    },
}

/// An extension to remember which entries a filesystem monitor reported as changed.
pub struct FsMonitor {
    token: Token,
    entry_dirty: gix_bitmap::ewah::Vec,
}

/// What there is to know of a [`Token`].
#[verifier::ext_equal]
pub enum TokenView {
    /// A timestamp.
    V1 {
        /// Nanoseconds since the unix epoch.
        nanos_since_1970: u64,
    },
    /// Something that only the filesystem monitor can interpret.
    V2 {
        /// The opaque bytes.
        token: Seq<u8>,
    },
}

/// What there is to know of an [`FsMonitor`].
#[verifier::ext_equal]
pub struct FsMonitorView {
    /// The point in time up to which the filesystem monitor was asked for changes.
    pub token: TokenView,
    /// The entries that must not be trusted without a look at the worktree.
    pub entry_dirty: Bitmap,
}

impl View for Token {
    type V = TokenView;

    open spec fn view(&self) -> TokenView {
        match self {
            Token::V1 { nanos_since_1970 } => TokenView::V1 { nanos_since_1970: *nanos_since_1970 },
            Token::V2 { token } => TokenView::V2 { token: token@ },
        }
    }
}

impl View for FsMonitor {
    type V = FsMonitorView;

    closed spec fn view(&self) -> FsMonitorView {
        FsMonitorView { token: self.token@, entry_dirty: bitmap_view(self.entry_dirty) }
    }
}

impl TokenView {
    /// The token as it is on disk: its version, and either a number, or bytes with a terminator.
    pub open spec fn encoded(self) -> Seq<u8> {
        match self {
            TokenView::V1 { nanos_since_1970 } => u32_be_bytes(1) + u64_be_bytes(nanos_since_1970),
            TokenView::V2 { token } => u32_be_bytes(2) + token.push(0),
        }
    }
}

impl FsMonitorView {
    /// Whether the format can represent this monitor, size aside: opaque bytes must be free of the byte that terminates
    /// them, and the counts of the bitmap fit the fields that they have on disk.
    pub open spec fn is_encodable(self) -> bool {
        &&& self.token matches TokenView::V2 { token } ==> !token.contains(0)
        &&& self.entry_dirty.is_encodable()
    }

    /// The payload of the extension: the token, and the bitmap preceded by its size.
    pub open spec fn encoded(self) -> Seq<u8> {
        self.token.encoded() + u32_be_bytes(self.entry_dirty.encoded().len() as u32) + self.entry_dirty.encoded()
    }
}

/// The token that `data` starts with and what follows it.
pub open spec fn token_parsed(data: Seq<u8>) -> Option<(TokenView, Seq<u8>)> {
    match u32_parsed(data) {
        Some((version, data)) => if version == 1 {
            match u64_parsed(data) {
                Some((nanos_since_1970, rest)) => Some((TokenView::V1 { nanos_since_1970 }, rest)),
                None => None,
            }
        } else if version == 2 {
            match split_at_byte(data, 0) {
                Some((token, rest)) => Some((TokenView::V2 { token }, rest)),
                None => None,
            }
        } else {
            None
        },
        None => None,
    }
}

/// The bitmap that `data` consists of, preceded by its size.
pub open spec fn sized_bitmap_parsed(data: Seq<u8>) -> Option<Bitmap> {
    match u32_parsed(data) {
        Some((size, data)) => match bitmap_parsed(data) {
            Some((bitmap, rest)) => if size == data.len() && rest.len() == 0 {
                Some(bitmap)
            } else {
                None
            },
            None => None,
        },
        None => None,
    }
}

/// The monitor that `data` consists of.
pub open spec fn monitor_parsed(data: Seq<u8>) -> Option<FsMonitorView> {
    match token_parsed(data) {
        Some((token, data)) => match sized_bitmap_parsed(data) {
            Some(entry_dirty) => Some(FsMonitorView { token, entry_dirty }),
            None => None,
        },
        None => None,
    }
}

/// Reading a token gives back what was written, and leaves what follows it.
pub proof fn law_token_read_gives_back_written(token: TokenView, rest: Seq<u8>)
    requires
        token matches TokenView::V2 { token } ==> !token.contains(0),
    ensures
        token_parsed(token.encoded() + rest) == Some((token, rest)),
{
    match token {
        TokenView::V1 { nanos_since_1970 } => {
            let tail = u64_be_bytes(nanos_since_1970) + rest;
            assert(token.encoded() + rest =~= u32_be_bytes(1) + tail);
            law_u32_read_gives_back_written(1, tail);
            law_u64_read_gives_back_written(nanos_since_1970, rest);
        },
        TokenView::V2 { token: bytes } => {
            let tail = bytes.push(0) + rest;
            assert(token.encoded() + rest =~= u32_be_bytes(2) + tail);
            law_u32_read_gives_back_written(2, tail);
            law_terminated_string_is_found(bytes, 0, rest);
        },
    }
}

/// Decoding the payload that a monitor is written to gives the monitor back: its token, and the very same bitmap.
pub proof fn law_monitor_read_gives_back_written(monitor: FsMonitorView)
    requires
        monitor.is_encodable(),
        monitor.entry_dirty.encoded().len() <= u32::MAX,
    ensures
        monitor_parsed(monitor.encoded()) == Some(monitor),
{
    let bitmap = monitor.entry_dirty.encoded();
    let size = u32_be_bytes(bitmap.len() as u32);
    let tail = size + bitmap;
    assert(monitor.encoded() =~= monitor.token.encoded() + tail);
    law_token_read_gives_back_written(monitor.token, tail);
    law_u32_read_gives_back_written(bitmap.len() as u32, bitmap);
    assert(bitmap + Seq::empty() =~= bitmap);
    law_bitmap_read_gives_back_written(monitor.entry_dirty, Seq::empty());
}

/// A token that was read is written to the bytes that it was read from.
proof fn lemma_token_is_written_as_read(data: Seq<u8>)
    ensures
        token_parsed(data) matches Some((token, rest)) ==> {
            &&& data == token.encoded() + rest
            &&& token matches TokenView::V2 { token } ==> !token.contains(0)
        },
{
    if let Some((version, tail)) = u32_parsed(data) {
        lemma_u32_bytes_round_trip(data.subrange(0, 4));
        if version == 1 {
            if let Some((nanos_since_1970, rest)) = u64_parsed(tail) {
                lemma_u64_bytes_round_trip(tail.subrange(0, 8));
                assert(data =~= data.subrange(0, 4) + tail.subrange(0, 8) + rest);
            }
        } else if version == 2 {
            lemma_split_at_byte_parts(tail, 0);
            if let Some((token, rest)) = split_at_byte(tail, 0) {
                assert(data =~= data.subrange(0, 4) + tail);
                assert(data.subrange(0, 4) + (token.push(0) + rest) =~= data.subrange(0, 4) + token.push(0) + rest);
            }
        }
    }
}

/// A monitor that was decoded is written to the very payload that it was decoded from.
pub proof fn law_monitor_is_written_as_read(data: Seq<u8>)
    ensures
        monitor_parsed(data) matches Some(monitor) ==> {
            &&& monitor.is_encodable()
            &&& monitor.entry_dirty.encoded().len() <= u32::MAX
            &&& data == monitor.encoded()
        },
{
    if let Some(monitor) = monitor_parsed(data) {
        lemma_token_is_written_as_read(data);
        let (_, tail) = token_parsed(data)->0;
        let (size, bitmap_data) = u32_parsed(tail)->0;
        let (bitmap, rest) = bitmap_parsed(bitmap_data)->0;
        lemma_u32_bytes_round_trip(tail.subrange(0, 4));
        law_bitmap_is_written_as_read(bitmap_data);
        assert(bitmap.encoded() + rest =~= bitmap.encoded());
        assert(data =~= monitor.encoded());
    }
}

/// A monitor takes up all of its data: nothing that follows it is accepted, and neither is anything that it starts
/// with.
pub proof fn law_monitor_takes_up_all_data(data: Seq<u8>, more: Seq<u8>)
    requires
        more.len() > 0,
    ensures
        monitor_parsed(data) is Some ==> monitor_parsed(data + more) is None,
        monitor_parsed(data + more) is Some ==> monitor_parsed(data) is None,
{
    if let Some(monitor) = monitor_parsed(data) {
        law_monitor_is_written_as_read(data);
        let bitmap = monitor.entry_dirty.encoded();
        let tail = u32_be_bytes(bitmap.len() as u32) + (bitmap + more);
        lemma_parts_extended(monitor.token.encoded(), u32_be_bytes(bitmap.len() as u32), bitmap, more);
        assert(token_parsed(data + more) == Some((monitor.token, tail))) by {
            law_token_read_gives_back_written(monitor.token, tail);
        }
        assert(sized_bitmap_parsed(tail) is None) by {
            law_u32_read_gives_back_written(bitmap.len() as u32, bitmap + more);
        }
    }
}

/// Bytes can be appended to the last of several parts.
proof fn lemma_parts_extended(first: Seq<u8>, second: Seq<u8>, third: Seq<u8>, more: Seq<u8>)
    ensures
        first + second + third + more == first + (second + (third + more)),
{
    assert(first + second + third + more =~= first + (second + (third + more)));
}

/// All parts of a monitor are found in the data as they stand: after the version, either eight bytes for a number, or
/// the bytes of the token and a NUL byte, then the size of the bitmap, and the bitmap up to the end.
pub proof fn law_monitor_is_found_in_data(data: Seq<u8>)
    ensures
        monitor_parsed(data) matches Some(monitor) ==> {
            let start = match monitor.token {
                TokenView::V1 { .. } => 12int,
                TokenView::V2 { token } => 5 + token.len() as int,
            };
            &&& match monitor.token {
                TokenView::V1 { nanos_since_1970 } => data.take(4) == seq![0u8, 0u8, 0u8, 1u8] && nanos_since_1970
                    == u64_be_value(data.subrange(4, 12)),
                TokenView::V2 { token } => {
                    &&& data.take(4) == seq![0u8, 0u8, 0u8, 2u8]
                    &&& data.subrange(4, 4 + token.len() as int) == token
                    &&& data[4 + token.len() as int] == 0
                    &&& !token.contains(0)
                },
            }
            &&& u32_be_value(data.subrange(start, start + 4)) == data.len() - start - 4
            &&& bitmap_parsed(data.skip(start + 4)) == Some((monitor.entry_dirty, Seq::<u8>::empty()))
        },
{
    if let Some(monitor) = monitor_parsed(data) {
        let (version, after_version) = u32_parsed(data)->0;
        let (token, tail) = token_parsed(data)->0;
        let (size, bitmap_data) = u32_parsed(tail)->0;
        let (bitmap, rest) = bitmap_parsed(bitmap_data)->0;
        lemma_version_bytes(data);
        assert(rest =~= Seq::empty());
        match monitor.token {
            TokenView::V1 { .. } => {
                assert(after_version.subrange(0, 8) =~= data.subrange(4, 12));
                assert(tail =~= data.skip(12));
                assert(tail.subrange(0, 4) =~= data.subrange(12, 16));
                assert(bitmap_data =~= data.skip(16));
            },
            TokenView::V2 { token } => {
                let end = 4 + token.len() as int;
                lemma_split_at_byte_parts(after_version, 0);
                assert(data.skip(4) =~= after_version);
                assert(after_version == token.push(0) + tail);
                assert(data.subrange(4, end) =~= token);
                assert(data[end] == after_version[token.len() as int]);
                assert(tail =~= after_version.skip(token.len() as int + 1));
                assert(after_version.skip(token.len() as int + 1) =~= data.skip(end + 1));
                assert(tail.subrange(0, 4) =~= data.subrange(end + 1, end + 5));
                assert(bitmap_data =~= data.skip(end + 5));
            },
        }
    }
}

/// The version is the last of the first four bytes, the others of which are zero.
proof fn lemma_version_bytes(data: Seq<u8>)
    requires
        data.len() >= 4,
    ensures
        u32_be_value(data.subrange(0, 4)) == 1 <==> data.take(4) == seq![0u8, 0u8, 0u8, 1u8],
        u32_be_value(data.subrange(0, 4)) == 2 <==> data.take(4) == seq![0u8, 0u8, 0u8, 2u8],
{
    let bytes = data.subrange(0, 4);
    assert(bytes =~= data.take(4));
    lemma_u32_bytes_round_trip(bytes);
    if u32_be_value(bytes) == 1 {
        assert(u32_be_bytes(1) =~= seq![0u8, 0u8, 0u8, 1u8]);
    }
    if u32_be_value(bytes) == 2 {
        assert(u32_be_bytes(2) =~= seq![0u8, 0u8, 0u8, 2u8]);
    }
}

/// Whatever consists of the version and the number of a timestamp, and a bitmap that is preceded by its size, is
/// accepted.
pub proof fn law_timestamp_monitor_is_accepted(number: Seq<u8>, bitmap_data: Seq<u8>)
    requires
        number.len() == 8,
        bitmap_data.len() <= u32::MAX,
        bitmap_parsed(bitmap_data) matches Some((_, rest)) && rest.len() == 0,
    ensures
        monitor_parsed(
            seq![0u8, 0u8, 0u8, 1u8] + number + u32_be_bytes(bitmap_data.len() as u32) + bitmap_data,
        ) == Some(
            FsMonitorView {
                token: TokenView::V1 { nanos_since_1970: u64_be_value(number) },
                entry_dirty: (bitmap_parsed(bitmap_data)->0).0,
            },
        ),
{
    let version = seq![0u8, 0u8, 0u8, 1u8];
    let size = u32_be_bytes(bitmap_data.len() as u32);
    let tail = size + bitmap_data;
    let data = version + number + size + bitmap_data;
    assert(u32_be_bytes(1) =~= version);
    assert(data =~= version + (number + tail));
    law_u32_read_gives_back_written(1, number + tail);
    law_u32_read_gives_back_written(bitmap_data.len() as u32, bitmap_data);
    assert((number + tail).subrange(0, 8) =~= number);
    assert((number + tail).subrange(8, (number + tail).len() as int) =~= tail);
}

/// Whatever consists of the version of an opaque token, the token with a NUL byte after it, and a bitmap that is
/// preceded by its size, is accepted.
pub proof fn law_token_monitor_is_accepted(token: Seq<u8>, bitmap_data: Seq<u8>)
    requires
        !token.contains(0),
        bitmap_data.len() <= u32::MAX,
        bitmap_parsed(bitmap_data) matches Some((_, rest)) && rest.len() == 0,
    ensures
        monitor_parsed(
            seq![0u8, 0u8, 0u8, 2u8] + token + seq![0u8] + u32_be_bytes(bitmap_data.len() as u32) + bitmap_data,
        ) == Some(
            FsMonitorView { token: TokenView::V2 { token }, entry_dirty: (bitmap_parsed(bitmap_data)->0).0 },
        ),
{
    let version = seq![0u8, 0u8, 0u8, 2u8];
    let size = u32_be_bytes(bitmap_data.len() as u32);
    let tail = size + bitmap_data;
    let data = version + token + seq![0u8] + size + bitmap_data;
    assert(u32_be_bytes(2) =~= version);
    assert(data =~= version + (token.push(0) + tail));
    law_u32_read_gives_back_written(2, token.push(0) + tail);
    law_terminated_string_is_found(token, 0, tail);
    law_u32_read_gives_back_written(bitmap_data.len() as u32, bitmap_data);
}

impl Clone for Token {
    fn clone(&self) -> (res: Self)
        ensures
            res@ == self@,
    {
        match self {
            Token::V1 { nanos_since_1970 } => Token::V1 { nanos_since_1970: *nanos_since_1970 },
            Token::V2 { token } => Token::V2 { token: owned(token.as_slice()) },
        }
    }
}

impl Clone for FsMonitor {
    fn clone(&self) -> (res: Self)
        ensures
            res@ == self@,
    {
        proof {
            use_type_invariant(self);
        }
        FsMonitor { token: self.token.clone(), entry_dirty: self.entry_dirty.clone() }
    }
}

/// Return true if `byte` is one of `bytes`.
fn contains_byte(bytes: &[u8], byte: u8) -> (res: bool)
    ensures
        res == bytes@.contains(byte),
{
    let mut index: usize = 0;
    while index < bytes.len()
        invariant
            index <= bytes.len(),
            forall|i: int| 0 <= i < index ==> bytes@[i] != byte,
        decreases bytes.len() - index,
    {
        if bytes[index] == byte {
            assert(bytes@[index as int] == byte);
            return true;
        }
        index = index + 1;
    }
    false
}

/// Whether `f` asks for more at each of the first `count` of `positions`.
pub open spec fn continues_for<F: FnMut(usize) -> Option<()>>(f: F, positions: Seq<usize>, count: int) -> bool {
    forall|i: int| 0 <= i < count ==> call_ensures(f, (#[trigger] positions[i],), Some(()))
}

/// Whether `f` may be called with each of `positions` one after another, up to the first at which it asks to stop.
///
/// Nothing is asked of `f` for a position unless it asked for more at all positions before.
pub open spec fn accepts_all<F: FnMut(usize) -> Option<()>>(f: F, positions: Seq<usize>) -> bool {
    forall|i: int|
        0 <= i < positions.len() && continues_for(f, positions, i) ==> call_requires(f, (#[trigger] positions[i],))
}

/// Whether `f` asks for more before the position at `count`, and to stop there.
pub open spec fn stops_at<F: FnMut(usize) -> Option<()>>(f: F, positions: Seq<usize>, count: int) -> bool {
    &&& 0 <= count < positions.len()
    &&& continues_for(f, positions, count)
    &&& call_ensures(f, (positions[count],), None)
}

/// Something that is called with one position after another, until it asks to stop.
///
/// A call makes use of the visitor, and hands back another one for the next call. There is nothing to be known of the
/// visitor that is handed back except that it takes the position that comes next, so that each call is made once, and
/// in order.
pub trait Visitor: Sized {
    /// Whether this visitor may be called with each of `positions` one after another, up to the first at which it asks
    /// to stop.
    spec fn accepts(self, positions: Seq<usize>) -> bool;

    /// Whether this visitor becomes `now` when it is called with the first `count` of `positions`, once each and in
    /// that order, and asks for more each time.
    spec fn continued(self, positions: Seq<usize>, count: int, now: Self) -> bool;

    /// Whether this visitor asks to stop when it is called with the position at `count`, after it was called with all
    /// positions before, once each and in that order, and asked for more each time.
    spec fn stopped(self, positions: Seq<usize>, count: int) -> bool;

    /// A visitor that was not called yet is the one to start with.
    proof fn starts(self, positions: Seq<usize>)
        ensures
            self.continued(positions, 0, self),
    ;

    /// Call this visitor with `position`, which is the first of `rest`, and return the visitor for the next call, along
    /// with whether there should be one.
    fn visit(self, position: usize, Ghost(rest): Ghost<Seq<usize>>) -> (res: (Self, Option<()>))
        requires
            rest.len() > 0,
            rest[0] == position,
            self.accepts(rest),
        ensures
            res.1 is Some ==> res.0.accepts(rest.drop_first()),
            forall|start: Self, positions: Seq<usize>, count: int|
                0 <= count < positions.len() && positions[count] == position && #[trigger] start.continued(
                    positions,
                    count,
                    self,
                ) ==> if res.1 is Some {
                    start.continued(positions, count + 1, res.0)
                } else {
                    start.stopped(positions, count)
                },
    ;
}

/// What a closure remembers of earlier calls is not known, so each of its calls is described by itself.
impl<F: FnMut(usize) -> Option<()>> Visitor for F {
    open spec fn accepts(self, positions: Seq<usize>) -> bool {
        accepts_all(self, positions)
    }

    open spec fn continued(self, positions: Seq<usize>, count: int, now: Self) -> bool {
        continues_for(self, positions, count) && now == self
    }

    open spec fn stopped(self, positions: Seq<usize>, count: int) -> bool {
        stops_at(self, positions, count)
    }

    proof fn starts(self, positions: Seq<usize>) {
    }

    fn visit(self, position: usize, Ghost(rest): Ghost<Seq<usize>>) -> (res: (Self, Option<()>)) {
        let mut callback = self;
        assert(rest[0] == position);
        let more = callback(position);
        proof {
            if more is Some {
                assert(more == Some(()));
                let left = rest.drop_first();
                assert forall|i: int| 0 <= i < left.len() && continues_for(self, left, i) implies call_requires(
                    self,
                    (#[trigger] left[i],),
                ) by {
                    assert forall|k: int| 0 <= k < i + 1 implies call_ensures(
                        self,
                        (#[trigger] rest[k],),
                        Some(()),
                    ) by {
                        if k > 0 {
                            assert(rest[k] == left[k - 1]);
                        }
                    }
                    assert(rest[i + 1] == left[i]);
                }
            }
        }
        (callback, more)
    }
}

/// Call `visitor` with each of `positions`, once and in that order, up to the first at which it asks to stop, and
/// return the visitor that is left along with true if it did not ask for that.
pub fn visit_each<V: Visitor>(positions: &[usize], visitor: V) -> (res: (V, bool))
    requires
        visitor.accepts(positions@),
    ensures
        res.1 ==> visitor.continued(positions@, positions@.len() as int, res.0),
        !res.1 ==> exists|count: int| 0 <= count < positions@.len() && #[trigger] visitor.stopped(positions@, count),
{
    let mut now = visitor;
    let mut index: usize = 0;
    proof {
        visitor.starts(positions@);
        assert(positions@.skip(0) =~= positions@);
    }
    while index < positions.len()
        invariant
            index <= positions.len(),
            now.accepts(positions@.skip(index as int)),
            visitor.continued(positions@, index as int, now),
        decreases positions.len() - index,
    {
        let position: usize = positions[index];
        assert(positions@.skip(index as int).drop_first() =~= positions@.skip(index + 1));
        let (next, more) = now.visit(position, Ghost(positions@.skip(index as int)));
        if more.is_none() {
            return (next, false);
        }
        now = next;
        index = index + 1;
    }
    (now, true)
}

impl FsMonitor {
    /// The format can represent this monitor.
    #[verifier::type_invariant]
    pub closed spec fn is_valid(self) -> bool {
        self@.is_encodable()
    }

    /// Create a version-two filesystem monitor extension with an opaque `token` and dirty-entry bitmap.
    ///
    /// Return `None` if the token contains a NUL byte or the bitmap cannot represent the entry count.
    pub fn from_token(token: Vec<u8>, dirty_entries: &[bool]) -> (res: Option<Self>)
        ensures
            res is Some <==> !token@.contains(0) && dirty_entries@.len() <= u32::MAX,
            res matches Some(monitor) ==> {
                &&& monitor@ == (FsMonitorView {
                    token: TokenView::V2 { token: token@ },
                    entry_dirty: literal_bitmap(dirty_entries@),
                })
                &&& monitor@.entry_dirty.is_well_formed()
                &&& monitor@.entry_dirty.set_bits() == true_positions(dirty_entries@)
            },
    {
        if contains_byte(token.as_slice(), 0) {
            return None;
        }
        match bitmap_from_bits(dirty_entries) {
            Some(entry_dirty) => {
                proof {
                    lemma_literal_bitmap_is_encodable(dirty_entries@);
                }
                Some(FsMonitor { token: Token::V2 { token }, entry_dirty })
            },
            None => None,
        }
    }

    /// Return the opaque version-two filesystem monitor token, or `None` for a legacy timestamp token.
    pub fn token(&self) -> (res: Option<&[u8]>)
        ensures
            match self@.token {
                TokenView::V1 { .. } => res is None,
                TokenView::V2 { token } => res matches Some(bytes) && bytes@ == token,
            },
    {
        match &self.token {
            Token::V1 { .. } => None,
            Token::V2 { token } => Some(token.as_slice()),
        }
    }

    /// Call `f` for each index entry which must not be trusted without checking the worktree, in ascending order.
    ///
    /// Return `None` if the bitmap is malformed or if `f` requests early termination, after which it isn't called
    /// again.
    pub fn for_each_dirty_entry<F: FnMut(usize) -> Option<()>>(&self, f: F) -> (res: Option<()>)
        requires
            accepts_all(f, self@.entry_dirty.set_bits()),
        ensures
            exists|positions: &[usize], walk: (F, bool)| #[trigger]
                call_ensures(visit_each::<F>, (positions, f), walk) && positions@ == self@.entry_dirty.set_bits()
                    && res is Some == (walk.1 && self@.entry_dirty.is_well_formed()),
            is_ascending(self@.entry_dirty.set_bits()),
            forall|i: int|
                0 <= i < self@.entry_dirty.set_bits().len() ==> #[trigger] self@.entry_dirty.set_bits()[i]
                    < self@.entry_dirty.num_bits,
            res is Some ==> self@.entry_dirty.is_well_formed() && continues_for(
                f,
                self@.entry_dirty.set_bits(),
                self@.entry_dirty.set_bits().len() as int,
            ),
            res is None ==> {
                ||| !self@.entry_dirty.is_well_formed() && continues_for(
                    f,
                    self@.entry_dirty.set_bits(),
                    self@.entry_dirty.set_bits().len() as int,
                )
                ||| exists|count: int| #[trigger] stops_at(f, self@.entry_dirty.set_bits(), count)
            },
    {
        let (positions, well_formed) = bitmap_set_bits(&self.entry_dirty);
        for_each_position(positions.as_slice(), well_formed, f)
    }

    /// Append the extension to `out`, or fail without a change if it is too large.
    ///
    /// Decoding what was written gives back this monitor.
    #[verifier::rlimit(40)]
    pub fn write_to(&self, out: &mut Vec<u8>) -> (res: Result<(), WriteError>)
        ensures
            match res {
                Ok(()) => {
                    &&& self@.entry_dirty.encoded().len() <= u32::MAX
                    &&& self@.encoded().len() <= u32::MAX
                    &&& final(out)@ == old(out)@ + framed(SIGNATURE, self@.encoded())
                    &&& monitor_parsed(self@.encoded()) == Some(self@)
                },
                Err(WriteError::BitmapTooLarge) => self@.entry_dirty.encoded().len() > u32::MAX && final(out)@
                    == old(out)@,
                Err(WriteError::ExtensionTooLarge) => self@.entry_dirty.encoded().len() <= u32::MAX
                    && self@.encoded().len() > u32::MAX && final(out)@ == old(out)@,
                Err(_) => false,
            },
    {
        proof {
            use_type_invariant(self);
        }
        let mut bitmap: Vec<u8> = Vec::new();
        if !write_bitmap(&self.entry_dirty, &mut bitmap) {
            return Err(WriteError::BitmapTooLarge);
        }
        assert(bitmap@ =~= self@.entry_dirty.encoded());
        let bitmap_size: usize = bitmap.len();
        if bitmap_size > u32::MAX as usize {
            return Err(WriteError::BitmapTooLarge);
        }
        let mut payload: Vec<u8> = Vec::new();
        match &self.token {
            Token::V1 { nanos_since_1970 } => {
                write_u32(&mut payload, 1);
                write_u64(&mut payload, *nanos_since_1970);
            },
            Token::V2 { token } => {
                write_u32(&mut payload, 2);
                write_bytes(&mut payload, token.as_slice());
                payload.push(0);
            },
        }
        assert(payload@ =~= self@.token.encoded());
        write_u32(&mut payload, bitmap_size as u32);
        write_bytes(&mut payload, bitmap.as_slice());
        assert(payload@ =~= self@.encoded());
        proof {
            law_monitor_read_gives_back_written(self@);
        }
        write_extension(out, SIGNATURE, payload.as_slice())
    }
}

/// Call `f` for each of `positions` in that order, which are those of the set bits of a bitmap that may be
/// `well_formed`.
///
/// Return `None` if it is not, or if `f` requests early termination, after which it isn't called again.
pub fn for_each_position<F: FnMut(usize) -> Option<()>>(positions: &[usize], well_formed: bool, f: F) -> (res: Option<
    (),
>)
    requires
        accepts_all(f, positions@),
    ensures
        exists|walk: (F, bool)| #[trigger]
            call_ensures(visit_each::<F>, (positions, f), walk) && res is Some == (walk.1 && well_formed),
        res is Some ==> well_formed && continues_for(f, positions@, positions@.len() as int),
        res is None ==> {
            ||| !well_formed && continues_for(f, positions@, positions@.len() as int)
            ||| exists|count: int| #[trigger] stops_at(f, positions@, count)
        },
{
    let walk = visit_each(positions, f);
    assert(call_ensures(visit_each::<F>, (positions, f), walk));
    if walk.1 && well_formed {
        Some(())
    } else {
        None
    }
}

/// Decode a token off the front of `data`.
fn decode_token(data: &[u8]) -> (res: Option<(Token, &[u8])>)
    ensures
        match res {
            Some((token, rest)) => token_parsed(data@) == Some((token@, rest@)),
            None => token_parsed(data@) is None,
        },
{
    let (version, data) = read_u32(data)?;
    if version == 1 {
        let (nanos_since_1970, data) = read_u64(data)?;
        Some((Token::V1 { nanos_since_1970 }, data))
    } else if version == 2 {
        let (token, data) = split_at_byte_exclusive(data, 0)?;
        Some((Token::V2 { token: owned(token) }, data))
    } else {
        None
    }
}

/// Decode a filesystem monitor extension from `data`.
///
/// Return `None` if the version isn't known, or if there are too few or too many bytes.
#[verifier::rlimit(40)]
pub fn decode(data: &[u8]) -> (res: Option<FsMonitor>)
    ensures
        match res {
            Some(monitor) => monitor_parsed(data@) == Some(monitor@),
            None => monitor_parsed(data@) is None,
        },
{
    proof {
        law_monitor_is_written_as_read(data@);
    }
    let (token, data) = decode_token(data)?;
    let (ewah_size, data) = read_u32(data)?;
    let (entry_dirty, data) = split_at_checked(data, ewah_size as usize)?;
    let (entry_dirty, extra) = bitmap_from_bytes(entry_dirty)?;
    if extra.len() != 0 {
        return None;
    }
    if data.len() != 0 {
        return None;
    }
    Some(FsMonitor { token, entry_dirty })
}

} // verus!
