//! The finished score that travels in a public link: who played, when, and
//! the value reached in each category.

use crate::bounds::{ceiling_sum, floor_sum, tally};
use crate::schema::{Category, QuestionView, Questions, Score};
use crate::session::{CapacityExceeded, Session, SessionView};
use crate::text::{alphabet_only, base64_bytes, base64_len, base64_text, from_base64, to_base64};
use crate::wire::{read_signed, read_varint, used, varint, zigzag};
use crate::wire::{lemma_pow256_values, lemma_read_signed_round_trip, lemma_varint_len};
use crate::wire::{lemma_read_varint_bounds, lemma_read_varint_extends, lemma_read_varint_round_trip};
use vstd::prelude::*;
use vstd::slice::slice_subrange;
use vstd::utf8::{decode_utf8, encode_utf8, valid_utf8};

verus! {

/// The fewest bytes that a player's name may have.
pub const NAME_MIN: usize = 1;

/// The most bytes that a player's name may have.
pub const NAME_MAX: usize = 50;

/// The language that a shared image is written in.
pub const IMAGE_LANG: &'static str = "fr";

/// What is answered for a share string that gives no record.
pub const UNKNOWN_SHARE_CODE: &'static str = "Unknown share code";

/// The version byte that a share record starts with.
pub const SHARE_VERSION: u8 = 1;

/// The most bytes that the binary form of a share record may have in a link.
pub const SHARE_CAPACITY: usize = 128;

/// A finished score as it is shared: it keeps its meaning whatever becomes
/// of the question set.
#[derive(Clone, Debug)]
pub struct EncodedV1 {
    /// Minutes since the Unix epoch.
    pub timestamp: i64,
    pub trashness: i32,
    pub sex: i32,
    pub alcohol: i32,
    pub drugs: i32,
    pub player_name: String,
}

/// What a share record holds.
pub struct EncodedV1View {
    pub timestamp: i64,
    pub trashness: i32,
    pub sex: i32,
    pub alcohol: i32,
    pub drugs: i32,
    pub player_name: Seq<char>,
}

impl View for EncodedV1 {
    type V = EncodedV1View;

    open spec fn view(&self) -> EncodedV1View {
        EncodedV1View {
            timestamp: self.timestamp,
            trashness: self.trashness,
            sex: self.sex,
            alcohol: self.alcohol,
            drugs: self.drugs,
            player_name: self.player_name@,
        }
    }
}

/// Why a share string gives no record.
#[derive(Clone, Copy, Debug, PartialEq, Eq, Structural)]
pub enum ShareError {
    /// The string is not base64 text.
    Base64,
    /// The bytes do not start with the version byte of a known format.
    UnsupportedVersion,
    /// What follows the version byte is not exactly one record.
    Bincode,
    /// The minutes, as seconds, name no instant of the calendar.
    InvalidTimestamp,
}

/// The first second of the calendar, counted from the Unix epoch: midnight
/// before the first day of the year -262143.
pub const CALENDAR_FIRST: i64 = -8_334_601_228_800;

/// The last second of the calendar, counted from the Unix epoch: the one
/// before midnight after the last day of the year 262142.
pub const CALENDAR_LAST: i64 = 8_210_266_876_799;

/// Whether the calendar has an instant `secs` seconds from the Unix epoch.
pub open spec fn in_calendar(secs: i64) -> bool {
    CALENDAR_FIRST <= secs <= CALENDAR_LAST
}

/// `DateTime::<Utc>::from_timestamp`, asked whether it gives an instant for
/// `secs` whole seconds: it does from the first day of its lowest year to
/// the last day of its highest, and nowhere else.
#[verifier::external_body]
fn calendar_has(secs: i64) -> (r: bool)
    ensures
        r == in_calendar(secs),
{
    chrono::DateTime::from_timestamp(secs, 0).is_some()
}

/// The body of a share record: the minutes, the four values, the length of
/// the name in bytes, the name.
pub open spec fn share_body(r: EncodedV1View) -> Seq<u8> {
    varint(zigzag(r.timestamp as int)) + varint(zigzag(r.trashness as int)) + varint(
        zigzag(r.sex as int),
    ) + varint(zigzag(r.alcohol as int)) + varint(zigzag(r.drugs as int)) + varint(
        encode_utf8(r.player_name).len(),
    ) + encode_utf8(r.player_name)
}

/// The binary form of a share record: the version byte, then the body.
pub open spec fn share_bytes(r: EncodedV1View) -> Seq<u8> {
    seq![SHARE_VERSION] + share_body(r)
}

/// What a reader of a share record's body takes from the front of `b`: the
/// record and the number of bytes consumed.
#[verifier::opaque]
pub open spec fn read_share_body(b: Seq<u8>) -> Option<(EncodedV1View, nat)> {
    let timestamp = read_signed(b, 8);
    let at1 = used(timestamp);
    let trashness = read_signed(b.skip(at1 as int), 4);
    let at2 = at1 + used(trashness);
    let sex = read_signed(b.skip(at2 as int), 4);
    let at3 = at2 + used(sex);
    let alcohol = read_signed(b.skip(at3 as int), 4);
    let at4 = at3 + used(alcohol);
    let drugs = read_signed(b.skip(at4 as int), 4);
    let at5 = at4 + used(drugs);
    let count = read_varint(b.skip(at5 as int), 8);
    let start = at5 + used(count);
    if timestamp is None || trashness is None || sex is None || alcohol is None || drugs is None
        || count is None || b.len() < start + count->Some_0.0 {
        None
    } else {
        let end = start + count->Some_0.0;
        let name = b.subrange(start as int, end as int);
        if valid_utf8(name) {
            Some(
                (
                    EncodedV1View {
                        timestamp: timestamp->Some_0.0 as i64,
                        trashness: trashness->Some_0.0 as i32,
                        sex: sex->Some_0.0 as i32,
                        alcohol: alcohol->Some_0.0 as i32,
                        drugs: drugs->Some_0.0 as i32,
                        player_name: decode_utf8(name),
                    },
                    end,
                ),
            )
        } else {
            None
        }
    }
}

/// The seconds since the Unix epoch that `minutes` stand for, where they fit
/// and the calendar has that instant.
pub open spec fn instant_of(minutes: i64) -> Option<i64> {
    if i64::MIN <= minutes * 60 <= i64::MAX && in_calendar((minutes * 60) as i64) {
        Some((minutes * 60) as i64)
    } else {
        None
    }
}

/// `bincode::encode_into_slice` with the standard configuration, on the
/// fields of a share record: writes the body at the front of `dst` and
/// returns its length; fails where `dst` is too short for it.
#[verifier::external_body]
fn encode_share_into(
    timestamp: i64,
    trashness: i32,
    sex: i32,
    alcohol: i32,
    drugs: i32,
    player_name: &str,
    dst: &mut [u8],
) -> (r: Result<usize, bincode::error::EncodeError>)
    ensures
        final(dst)@.len() == old(dst)@.len(),
        match r {
            Ok(n) => {
                let body = share_body(
                    EncodedV1View {
                        timestamp,
                        trashness,
                        sex,
                        alcohol,
                        drugs,
                        player_name: player_name@,
                    },
                );
                n == body.len() && n <= old(dst)@.len() && final(dst)@.subrange(0, n as int)
                    == body
            },
            Err(_) => share_body(
                EncodedV1View { timestamp, trashness, sex, alcohol, drugs, player_name: player_name@ },
            ).len() > old(dst)@.len(),
        },
{
    bincode::encode_into_slice(
        (timestamp, trashness, sex, alcohol, drugs, player_name),
        dst,
        bincode::config::standard(),
    )
}

/// `bincode::borrow_decode_from_slice` with the standard configuration, for
/// the fields of a share record: what `read_share_body` takes from the front
/// of `src`, and an error where it takes nothing.
#[verifier::external_body]
fn decode_share_from<'a>(src: &'a [u8]) -> (r: Result<
    ((i64, i32, i32, i32, i32, &'a str), usize),
    bincode::error::DecodeError,
>)
    ensures
        match r {
            Ok(((timestamp, trashness, sex, alcohol, drugs, player_name), n)) => read_share_body(
                src@,
            ) == Some(
                (
                    EncodedV1View {
                        timestamp,
                        trashness,
                        sex,
                        alcohol,
                        drugs,
                        player_name: player_name@,
                    },
                    n as nat,
                ),
            ),
            Err(_) => read_share_body(src@) is None,
        },
{
    bincode::borrow_decode_from_slice(src, bincode::config::standard())
}

/// The body of a record is at most 30 bytes longer than the name.
pub proof fn lemma_share_body_len(r: EncodedV1View)
    ensures
        encode_utf8(r.player_name).len() + 6 <= share_body(r).len() <= encode_utf8(
            r.player_name,
        ).len() + 38,
        encode_utf8(r.player_name).len() <= 250 ==> share_body(r).len() <= encode_utf8(
            r.player_name,
        ).len() + 30,
{
    lemma_varint_len(zigzag(r.timestamp as int));
    lemma_varint_len(zigzag(r.trashness as int));
    lemma_varint_len(zigzag(r.sex as int));
    lemma_varint_len(zigzag(r.alcohol as int));
    lemma_varint_len(zigzag(r.drugs as int));
    lemma_varint_len(encode_utf8(r.player_name).len());
}

/// What a reader takes from `b` where each field is read at its place: the
/// record of those fields.
proof fn lemma_read_share_of_fields(
    b: Seq<u8>,
    r: EncodedV1View,
    n0: nat,
    n1: nat,
    n2: nat,
    n3: nat,
    n4: nat,
    n5: nat,
)
    requires
        read_signed(b, 8) == Some((r.timestamp as int, n0)),
        read_signed(b.skip(n0 as int), 4) == Some((r.trashness as int, n1)),
        read_signed(b.skip((n0 + n1) as int), 4) == Some((r.sex as int, n2)),
        read_signed(b.skip((n0 + n1 + n2) as int), 4) == Some((r.alcohol as int, n3)),
        read_signed(b.skip((n0 + n1 + n2 + n3) as int), 4) == Some((r.drugs as int, n4)),
        read_varint(b.skip((n0 + n1 + n2 + n3 + n4) as int), 8) == Some(
            (encode_utf8(r.player_name).len(), n5),
        ),
        b.len() >= n0 + n1 + n2 + n3 + n4 + n5 + encode_utf8(r.player_name).len(),
        b.subrange(
            (n0 + n1 + n2 + n3 + n4 + n5) as int,
            (n0 + n1 + n2 + n3 + n4 + n5 + encode_utf8(r.player_name).len()) as int,
        ) == encode_utf8(r.player_name),
    ensures
        read_share_body(b) == Some(
            (r, n0 + n1 + n2 + n3 + n4 + n5 + encode_utf8(r.player_name).len()),
        ),
{
    reveal(read_share_body);
    vstd::utf8::encode_utf8_valid_utf8(r.player_name);
    vstd::utf8::encode_utf8_decode_utf8(r.player_name);
}

/// Where seven byte strings are joined and something follows, each of them
/// begins what is left behind those before it.
proof fn lemma_places(
    v0: Seq<u8>,
    v1: Seq<u8>,
    v2: Seq<u8>,
    v3: Seq<u8>,
    v4: Seq<u8>,
    v5: Seq<u8>,
    name: Seq<u8>,
    tail: Seq<u8>,
)
    ensures
        ({
            let b = v0 + v1 + v2 + v3 + v4 + v5 + name + tail;
            let at1 = v0.len();
            let at2 = at1 + v1.len();
            let at3 = at2 + v2.len();
            let at4 = at3 + v3.len();
            let at5 = at4 + v4.len();
            let start = at5 + v5.len();
            &&& b == v0 + (v1 + (v2 + (v3 + (v4 + (v5 + (name + tail))))))
            &&& b.skip(at1 as int) == v1 + (v2 + (v3 + (v4 + (v5 + (name + tail)))))
            &&& b.skip(at2 as int) == v2 + (v3 + (v4 + (v5 + (name + tail))))
            &&& b.skip(at3 as int) == v3 + (v4 + (v5 + (name + tail)))
            &&& b.skip(at4 as int) == v4 + (v5 + (name + tail))
            &&& b.skip(at5 as int) == v5 + (name + tail)
            &&& b.len() == start + name.len() + tail.len()
            &&& b.subrange(start as int, (start + name.len()) as int) == name
        }),
{
    let b = v0 + v1 + v2 + v3 + v4 + v5 + name + tail;
    let at1 = v0.len();
    let at2 = at1 + v1.len();
    let at3 = at2 + v2.len();
    let at4 = at3 + v3.len();
    let at5 = at4 + v4.len();
    let start = at5 + v5.len();
    assert(b =~= v0 + (v1 + (v2 + (v3 + (v4 + (v5 + (name + tail)))))));
    assert(b.skip(at1 as int) =~= v1 + (v2 + (v3 + (v4 + (v5 + (name + tail))))));
    assert(b.skip(at2 as int) =~= v2 + (v3 + (v4 + (v5 + (name + tail)))));
    assert(b.skip(at3 as int) =~= v3 + (v4 + (v5 + (name + tail))));
    assert(b.skip(at4 as int) =~= v4 + (v5 + (name + tail)));
    assert(b.skip(at5 as int) =~= v5 + (name + tail));
    assert(b.subrange(start as int, (start + name.len()) as int) =~= name);
}

/// A reader takes back the body of a record that was written, whatever
/// follows it.
pub proof fn lemma_read_share_round_trip(r: EncodedV1View, tail: Seq<u8>)
    requires
        encode_utf8(r.player_name).len() <= u64::MAX,
    ensures
        read_share_body(share_body(r) + tail) == Some((r, share_body(r).len())),
{
    lemma_pow256_values();
    let name = encode_utf8(r.player_name);
    let v0 = varint(zigzag(r.timestamp as int));
    let v1 = varint(zigzag(r.trashness as int));
    let v2 = varint(zigzag(r.sex as int));
    let v3 = varint(zigzag(r.alcohol as int));
    let v4 = varint(zigzag(r.drugs as int));
    let v5 = varint(name.len());
    let b = share_body(r) + tail;
    let t5 = name + tail;
    let t4 = v5 + t5;
    let t3 = v4 + t4;
    let t2 = v3 + t3;
    let t1 = v2 + t2;
    let t0 = v1 + t1;
    lemma_places(v0, v1, v2, v3, v4, v5, name, tail);
    lemma_read_signed_round_trip(r.timestamp as int, 8, t0);
    lemma_read_signed_round_trip(r.trashness as int, 4, t1);
    lemma_read_signed_round_trip(r.sex as int, 4, t2);
    lemma_read_signed_round_trip(r.alcohol as int, 4, t3);
    lemma_read_signed_round_trip(r.drugs as int, 4, t4);
    lemma_read_varint_round_trip(name.len(), 8, t5);
    lemma_read_share_of_fields(b, r, v0.len(), v1.len(), v2.len(), v3.len(), v4.len(), v5.len());
}

/// What a reader of an unsigned integer takes at `at` does not depend on
/// what follows `b`, and lies within `b`.
proof fn lemma_varint_extends_at(b: Seq<u8>, at: nat, width: nat, tail: Seq<u8>)
    requires
        width == 4 || width == 8,
        at <= b.len(),
        read_varint(b.skip(at as int), width) is Some,
    ensures
        read_varint((b + tail).skip(at as int), width) == read_varint(b.skip(at as int), width),
        at + used(read_varint(b.skip(at as int), width)) <= b.len(),
{
    assert((b + tail).skip(at as int) =~= b.skip(at as int) + tail);
    lemma_read_varint_extends(b.skip(at as int), width, tail);
    lemma_read_varint_bounds(b.skip(at as int), width);
}

/// What a reader of a signed integer takes at `at` does not depend on what
/// follows `b`, and lies within `b`.
proof fn lemma_signed_extends_at(b: Seq<u8>, at: nat, width: nat, tail: Seq<u8>)
    requires
        width == 4 || width == 8,
        at <= b.len(),
        read_signed(b.skip(at as int), width) is Some,
    ensures
        read_signed((b + tail).skip(at as int), width) == read_signed(b.skip(at as int), width),
        at + used(read_signed(b.skip(at as int), width)) <= b.len(),
{
    lemma_varint_extends_at(b, at, width, tail);
}

/// What a reader takes does not depend on what follows it.
#[verifier::rlimit(40)]
pub proof fn lemma_read_share_extends(b: Seq<u8>, tail: Seq<u8>)
    requires
        read_share_body(b) is Some,
    ensures
        read_share_body(b + tail) == read_share_body(b),
{
    reveal(read_share_body);
    let c = b + tail;
    assert(b.skip(0) =~= b);
    assert(c.skip(0) =~= c);
    lemma_signed_extends_at(b, 0, 8, tail);
    let at1 = used(read_signed(b, 8));
    lemma_signed_extends_at(b, at1, 4, tail);
    let at2 = at1 + used(read_signed(b.skip(at1 as int), 4));
    lemma_signed_extends_at(b, at2, 4, tail);
    let at3 = at2 + used(read_signed(b.skip(at2 as int), 4));
    lemma_signed_extends_at(b, at3, 4, tail);
    let at4 = at3 + used(read_signed(b.skip(at3 as int), 4));
    lemma_signed_extends_at(b, at4, 4, tail);
    let at5 = at4 + used(read_signed(b.skip(at4 as int), 4));
    lemma_varint_extends_at(b, at5, 8, tail);
    let count = read_varint(b.skip(at5 as int), 8);
    let start = at5 + used(count);
    let end = start + count->Some_0.0;
    assert(c.subrange(start as int, end as int) =~= b.subrange(start as int, end as int));
}

impl EncodedV1 {
    /// The record that `bytes` are the binary form of: the version byte,
    /// then exactly one body, with minutes that name an instant.
    pub open spec fn parsing(bytes: Seq<u8>) -> Result<EncodedV1View, ShareError> {
        if bytes.len() == 0 || bytes[0] != SHARE_VERSION {
            Err(ShareError::UnsupportedVersion)
        } else {
            match read_share_body(bytes.skip(1)) {
                Some((r, n)) => if n != bytes.len() - 1 {
                    Err(ShareError::Bincode)
                } else if instant_of(r.timestamp) is None {
                    Err(ShareError::InvalidTimestamp)
                } else {
                    Ok(r)
                },
                None => Err(ShareError::Bincode),
            }
        }
    }

    /// The record that a share string stands for.
    pub open spec fn decoding(text: Seq<char>) -> Result<EncodedV1View, ShareError> {
        match base64_bytes(text) {
            Some(bytes) => Self::parsing(bytes),
            None => Err(ShareError::Base64),
        }
    }

    /// Writes the binary form at the front of `full_buf` and returns the part
    /// written. Fails where `full_buf` is too short for it.
    pub fn encode<'buf>(&self, full_buf: &'buf mut [u8]) -> (r: Result<&'buf [u8], CapacityExceeded>)
        ensures
            final(full_buf)@.len() == old(full_buf)@.len(),
            match r {
                Ok(written) => {
                    &&& written@ == share_bytes(self@)
                    &&& written@.len() <= old(full_buf)@.len()
                    &&& final(full_buf)@.subrange(0, written@.len() as int) == written@
                },
                Err(_) => share_bytes(self@).len() > old(full_buf)@.len(),
            },
    {
        if full_buf.len() == 0 {
            return Err(CapacityExceeded);
        }
        let (version, buf) = full_buf.split_at_mut(1);
        version[0] = SHARE_VERSION;
        match encode_share_into(
            self.timestamp,
            self.trashness,
            self.sex,
            self.alcohol,
            self.drugs,
            self.player_name.as_str(),
            buf,
        ) {
            Ok(count) => {
                assert(full_buf@.subrange(0, 1 + count as int) =~= share_bytes(self@));
                Ok(slice_subrange(full_buf, 0, 1 + count))
            },
            Err(_) => Err(CapacityExceeded),
        }
    }

    /// The record that `buf` is the binary form of.
    pub fn decode(buf: &[u8]) -> (r: Result<EncodedV1, ShareError>)
        ensures
            match r {
                Ok(record) => Self::parsing(buf@) == Ok::<EncodedV1View, ShareError>(record@),
                Err(e) => Self::parsing(buf@) == Err::<EncodedV1View, ShareError>(e),
            },
    {
        if buf.len() == 0 || buf[0] != SHARE_VERSION {
            return Err(ShareError::UnsupportedVersion);
        }
        let body = slice_subrange(buf, 1, buf.len());
        assert(body@ =~= buf@.skip(1));
        match decode_share_from(body) {
            Ok(((timestamp, trashness, sex, alcohol, drugs, player_name), read)) => {
                if read != body.len() {
                    Err(ShareError::Bincode)
                } else {
                    let record = EncodedV1 {
                        timestamp,
                        trashness,
                        sex,
                        alcohol,
                        drugs,
                        player_name: player_name.to_owned(),
                    };
                    match record.timestamp() {
                        Some(_) => Ok(record),
                        None => Err(ShareError::InvalidTimestamp),
                    }
                }
            },
            Err(_) => Err(ShareError::Bincode),
        }
    }

    /// The instant of the record in seconds since the Unix epoch, where the
    /// calendar has it.
    pub fn timestamp(&self) -> (r: Option<i64>)
        ensures
            r == instant_of(self.timestamp),
    {
        match self.timestamp.checked_mul(60) {
            Some(secs) => if calendar_has(secs) {
                Some(secs)
            } else {
                None
            },
            None => None,
        }
    }

    /// The values of the record as a score.
    pub fn score(&self) -> (r: Score)
        ensures
            r == (Score {
                trashness: self.trashness,
                sex: self.sex,
                alcohol: self.alcohol,
                drugs: self.drugs,
            }),
    {
        Score {
            trashness: self.trashness,
            sex: self.sex,
            alcohol: self.alcohol,
            drugs: self.drugs,
        }
    }

    /// What decoding gives for the share string of a record: the record
    /// where its minutes name an instant.
    pub open spec fn shared(r: EncodedV1View) -> Result<EncodedV1View, ShareError> {
        if instant_of(r.timestamp) is None {
            Err(ShareError::InvalidTimestamp)
        } else {
            Ok(r)
        }
    }

    /// The share string of the record: the base64 text of its binary form.
    /// Fails where the binary form has more than `SHARE_CAPACITY` bytes. The
    /// string decodes to this record again, where its minutes name an
    /// instant.
    pub fn to_share_string(&self) -> (r: Result<String, CapacityExceeded>)
        ensures
            match r {
                Ok(text) => {
                    &&& share_bytes(self@).len() <= SHARE_CAPACITY
                    &&& text@ == base64_text(share_bytes(self@))
                    &&& text@.len() == base64_len(share_bytes(self@).len())
                    &&& alphabet_only(text@)
                    &&& Self::decoding(text@) == Self::shared(self@)
                },
                Err(_) => share_bytes(self@).len() > SHARE_CAPACITY,
            },
    {
        let mut buf: Vec<u8> = vec![0u8; SHARE_CAPACITY];
        match self.encode(buf.as_mut_slice()) {
            Ok(written) => {
                let text = to_base64(written);
                proof {
                    lemma_share_body_len(self@);
                    lemma_share_parsing_round_trip(self@);
                }
                Ok(text)
            },
            Err(e) => Err(e),
        }
    }
}

/// The binary form of a record parses to the record, where its minutes name
/// an instant, and to `InvalidTimestamp` where they name none.
pub proof fn lemma_share_parsing_round_trip(r: EncodedV1View)
    requires
        encode_utf8(r.player_name).len() <= u64::MAX,
    ensures
        EncodedV1::parsing(share_bytes(r)) == EncodedV1::shared(r),
{
    lemma_read_share_round_trip(r, Seq::empty());
    assert(share_body(r) + Seq::<u8>::empty() =~= share_body(r));
    assert(share_bytes(r).skip(1) =~= share_body(r));
}

/// The minutes that name an instant are those from the first to the last
/// whole minute of the calendar; the minutes of any day since the Unix epoch
/// through the year 9999 are among them.
pub proof fn lemma_instant_of(minutes: i64)
    ensures
        instant_of(minutes) is Some <==> -138_910_020_480 <= minutes <= 136_837_781_279,
        instant_of(minutes) is Some ==> instant_of(minutes) == Some((minutes * 60) as i64),
        0 <= minutes <= 4_223_371_679 ==> instant_of(minutes) is Some,
{
}

/// A record whose minutes name an instant, and whose name fits a length
/// prefix, comes back from its binary form.
pub proof fn lemma_share_round_trip(r: EncodedV1View)
    requires
        encode_utf8(r.player_name).len() <= u64::MAX,
        -138_910_020_480 <= r.timestamp <= 136_837_781_279,
    ensures
        EncodedV1::parsing(share_bytes(r)) == Ok::<EncodedV1View, ShareError>(r),
{
    lemma_instant_of(r.timestamp);
    lemma_share_parsing_round_trip(r);
}

/// Bytes that start with another version byte give `UnsupportedVersion`,
/// whatever follows.
pub proof fn lemma_version_gate(bytes: Seq<u8>)
    requires
        bytes.len() == 0 || bytes[0] != SHARE_VERSION,
    ensures
        EncodedV1::parsing(bytes) == Err::<EncodedV1View, ShareError>(
            ShareError::UnsupportedVersion,
        ),
{
}

/// Bytes that parse to a record parse to none once bytes are added or taken
/// away at the end.
pub proof fn lemma_share_framing(bytes: Seq<u8>, other: Seq<u8>)
    requires
        EncodedV1::parsing(bytes) is Ok,
        other.len() != bytes.len(),
        other.len() <= bytes.len() ==> other == bytes.subrange(0, other.len() as int),
        other.len() >= bytes.len() ==> bytes == other.subrange(0, bytes.len() as int),
    ensures
        EncodedV1::parsing(other) is Err,
{
    if other.len() > bytes.len() {
        let tail = other.subrange(bytes.len() as int, other.len() as int);
        assert(other =~= bytes + tail);
        assert(other.skip(1) =~= bytes.skip(1) + tail);
        lemma_read_share_extends(bytes.skip(1), tail);
    } else if other.len() > 0 && EncodedV1::parsing(other) is Ok {
        let tail = bytes.subrange(other.len() as int, bytes.len() as int);
        assert(bytes =~= other + tail);
        assert(bytes.skip(1) =~= other.skip(1) + tail);
        lemma_read_share_extends(other.skip(1), tail);
    }
}

/// The name under which a player shares a score: between `NAME_MIN` and
/// `NAME_MAX` bytes.
pub struct ScoreSaveForm<'a> {
    name: &'a str,
}

impl<'a> ScoreSaveForm<'a> {
    #[verifier::type_invariant]
    pub closed spec fn wf(&self) -> bool {
        NAME_MIN <= encode_utf8(self.name@).len() <= NAME_MAX
    }

    /// The name.
    pub closed spec fn spec_name(&self) -> Seq<char> {
        self.name@
    }

    /// The form with this name, where the name has an accepted length.
    pub fn new(name: &'a str) -> (r: Option<ScoreSaveForm<'a>>)
        ensures
            r is Some <==> NAME_MIN <= encode_utf8(name@).len() <= NAME_MAX,
            r is Some ==> r->Some_0.spec_name() == name@,
    {
        let len = name.as_bytes().len();
        if len >= NAME_MIN && len <= NAME_MAX {
            Some(ScoreSaveForm { name })
        } else {
            None
        }
    }

    /// The name.
    pub fn name(&self) -> (r: &'a str)
        ensures
            r@ == self.spec_name(),
            NAME_MIN <= encode_utf8(r@).len() <= NAME_MAX,
    {
        proof {
            use_type_invariant(self);
        }
        self.name
    }
}

/// The whole minutes that `now` seconds hold, counted from the Unix epoch
/// and rounded down.
pub fn minutes_of(now: i64) -> (m: i64)
    ensures
        m == now as int / 60,
{
    if now >= 0 {
        now / 60
    } else {
        -((-(now + 1)) / 60) - 1
    }
}

/// The score of a session on the questions, where it has one: one answer
/// for each question, and the fingerprint of these questions.
pub open spec fn finished_score(s: SessionView, qs: Seq<QuestionView>, hash: u64) -> Option<
    Score,
> {
    if s.answers.len() == qs.len() && s.questions_hash == hash {
        Some(
            Score {
                trashness: tally(qs, s.answers, Category::Trashness) as i32,
                sex: tally(qs, s.answers, Category::Sex) as i32,
                alcohol: tally(qs, s.answers, Category::Alcohol) as i32,
                drugs: tally(qs, s.answers, Category::Drugs) as i32,
            },
        )
    } else {
        None
    }
}

/// The record that shares `score` under `name` at `now` seconds.
pub open spec fn share_record(score: Score, name: Seq<char>, now: i64) -> EncodedV1View {
    EncodedV1View {
        timestamp: (now as int / 60) as i64,
        trashness: score.trashness,
        sex: score.sex,
        alcohol: score.alcohol,
        drugs: score.drugs,
        player_name: name,
    }
}

/// The share string for the score of a session, under the name of the form,
/// at `now` seconds since the Unix epoch. There is none for a session
/// without a score.
pub fn score_share(session: &Session, questions: &Questions, form: &ScoreSaveForm, now: i64) -> (r:
    Option<String>)
    ensures
        match r {
            Some(text) => {
                let score = finished_score(session@, questions@, questions.spec_cached_hash());
                let record = share_record(score->Some_0, form.spec_name(), now);
                &&& score is Some
                &&& text@ == base64_text(share_bytes(record))
                &&& text@.len() == base64_len(share_bytes(record).len())
                &&& alphabet_only(text@)
                &&& EncodedV1::decoding(text@) == EncodedV1::shared(record)
            },
            None => finished_score(session@, questions@, questions.spec_cached_hash()) is None,
        },
{
    let score = match session.score(questions) {
        Some(score) => score,
        None => {
            return None;
        },
    };
    assert(Some(score) == finished_score(session@, questions@, questions.spec_cached_hash())) by {
        assert(score.at(Category::Trashness) == score.trashness);
        assert(score.at(Category::Sex) == score.sex);
        assert(score.at(Category::Alcohol) == score.alcohol);
        assert(score.at(Category::Drugs) == score.drugs);
    }
    let record = EncodedV1 {
        timestamp: minutes_of(now),
        trashness: score.trashness,
        sex: score.sex,
        alcohol: score.alcohol,
        drugs: score.drugs,
        player_name: form.name().to_owned(),
    };
    proof {
        // A name of at most `NAME_MAX` bytes leaves room in `SHARE_CAPACITY`.
        lemma_share_body_len(record@);
    }
    match record.to_share_string() {
        Ok(text) => Some(text),
        Err(_) => None,
    }
}

/// The record that a share string stands for. A string with a character
/// outside the URL-safe alphabet stands for none.
pub fn exported_score(share_string: &str) -> (r: Result<EncodedV1, ShareError>)
    ensures
        match r {
            Ok(record) => EncodedV1::decoding(share_string@) == Ok::<EncodedV1View, ShareError>(
                record@,
            ),
            Err(e) => EncodedV1::decoding(share_string@) == Err::<EncodedV1View, ShareError>(e),
        },
        !alphabet_only(share_string@) ==> r is Err && r->Err_0 == ShareError::Base64,
{
    match from_base64(share_string) {
        Ok(bytes) => EncodedV1::decode(bytes.as_slice()),
        Err(_) => Err(ShareError::Base64),
    }
}

/// One dial of a shared image: the bounds of a category and the value
/// reached in it.
#[derive(Clone, Copy, Debug, PartialEq, Eq, Structural)]
pub struct Gauge {
    pub from: i32,
    pub to: i32,
    pub value: i32,
}

/// What the image of a shared score is drawn from.
#[derive(Clone, Debug)]
pub struct OgImageInputs {
    pub name: String,
    pub lang: &'static str,
    pub trashness: Gauge,
    pub sex: Gauge,
    pub alcohol: Gauge,
    pub drugs: Gauge,
    /// The instant of the record, in seconds since the Unix epoch.
    pub creation_timestamp: i64,
}

/// The dial for `cat`: it runs between the bounds that the questions have
/// now, whenever the score was shared.
pub open spec fn gauge_of(qs: Seq<QuestionView>, score: Score, cat: Category) -> Gauge {
    Gauge {
        from: floor_sum(qs, cat) as i32,
        to: ceiling_sum(qs, cat) as i32,
        value: score.at(cat) as i32,
    }
}

/// The dial for `cat`.
pub fn make_gauge(questions: &Questions, score: Score, cat: Category) -> (g: Gauge)
    ensures
        g == gauge_of(questions@, score, cat),
        g.from == floor_sum(questions@, cat),
        g.to == ceiling_sum(questions@, cat),
        g.value == score.at(cat),
{
    Gauge { from: questions.mins().get(cat), to: questions.maxes().get(cat), value: score.get(cat) }
}

/// How a request for the image of a shared score ends.
#[derive(Debug)]
pub enum ExportedScoreOgImageResponse {
    /// The image.
    Png(Vec<u8>),
    /// The share string gives no record.
    CannotDecode(&'static str),
    /// The image could not be drawn.
    GenerationError(String),
}

impl ExportedScoreOgImageResponse {
    /// The answer for a share string that gives no record.
    pub fn cannot_decode() -> (r: Self)
        ensures
            r matches ExportedScoreOgImageResponse::CannotDecode(m) && m@ == UNKNOWN_SHARE_CODE@,
    {
        Self::CannotDecode(UNKNOWN_SHARE_CODE)
    }

    /// The answer where drawing failed with `err`.
    pub fn generation_error(err: String) -> (r: Self)
        ensures
            r matches ExportedScoreOgImageResponse::GenerationError(m) && m == err,
    {
        Self::GenerationError(err)
    }

    /// The answer for what drawing the image gave: the image, or the error.
    pub fn from_render(outcome: Result<Vec<u8>, String>) -> (r: Self)
        ensures
            match outcome {
                Ok(image) => r matches ExportedScoreOgImageResponse::Png(b) && b == image,
                Err(err) => r matches ExportedScoreOgImageResponse::GenerationError(m) && m == err,
            },
    {
        match outcome {
            Ok(image) => Self::Png(image),
            Err(err) => Self::generation_error(err),
        }
    }
}

/// What the image for a share string is drawn from, or the answer to give
/// where the string gives no record.
pub fn exported_score_og_image(questions: &Questions, share_string: &str) -> (r: Result<
    OgImageInputs,
    ExportedScoreOgImageResponse,
>)
    ensures
        match r {
            Ok(inputs) => {
                &&& EncodedV1::decoding(share_string@) is Ok
                &&& ({
                    let record = EncodedV1::decoding(share_string@)->Ok_0;
                    let score = Score {
                        trashness: record.trashness,
                        sex: record.sex,
                        alcohol: record.alcohol,
                        drugs: record.drugs,
                    };
                    &&& inputs.name@ == record.player_name
                    &&& inputs.lang@ == IMAGE_LANG@
                    &&& inputs.trashness == gauge_of(questions@, score, Category::Trashness)
                    &&& inputs.sex == gauge_of(questions@, score, Category::Sex)
                    &&& inputs.alcohol == gauge_of(questions@, score, Category::Alcohol)
                    &&& inputs.drugs == gauge_of(questions@, score, Category::Drugs)
                    &&& Some(inputs.creation_timestamp) == instant_of(record.timestamp)
                })
            },
            Err(response) => {
                &&& EncodedV1::decoding(share_string@) is Err
                &&& response matches ExportedScoreOgImageResponse::CannotDecode(m) && m@
                    == UNKNOWN_SHARE_CODE@
            },
        },
{
    let record = match exported_score(share_string) {
        Ok(record) => record,
        Err(_) => {
            return Err(ExportedScoreOgImageResponse::cannot_decode());
        },
    };
    let creation_timestamp = match record.timestamp() {
        Some(seconds) => seconds,
        None => {
            return Err(ExportedScoreOgImageResponse::cannot_decode());
        },
    };
    let score = record.score();
    Ok(
        OgImageInputs {
            lang: IMAGE_LANG,
            trashness: make_gauge(questions, score, Category::Trashness),
            sex: make_gauge(questions, score, Category::Sex),
            alcohol: make_gauge(questions, score, Category::Alcohol),
            drugs: make_gauge(questions, score, Category::Drugs),
            creation_timestamp,
            name: record.player_name,
        },
    )
}

} // verus!
