//! What becomes of a stream that was damaged on the way: an error, never
//! silence.

use vstd::prelude::*;

use crate::error::Error;
use crate::ogg::page::{
    crc_byte, crc_matches, crc_of, law_page_round_trip, page_bytes, page_crc, without_crc,
    PageModel, HEADER_LEN,
};
use crate::ogg::reader::{
    next_header, poll_ogg, read_page_body, read_page_step, OggReaderModel, PacketModel,
};

verus! {

/// Eight bits into the checksum register can be taken back.
proof fn lemma_crc_byte_injective(a: u32, b: u32)
    requires
        crc_byte(a) == crc_byte(b),
    ensures
        a == b,
{
    assert(crc_byte(a) == crc_byte(b) ==> a == b) by (bit_vector);
}

/// Changing any one byte changes the checksum.
pub proof fn law_checksum_sees_every_byte(s: Seq<u8>, i: int, b: u8, init: u32)
    requires
        0 <= i < s.len(),
        s[i] != b,
    ensures
        crc_of(s.update(i, b), init) != crc_of(s, init),
    decreases s.len(),
{
    let changed = s.update(i, b);
    if i == s.len() - 1 {
        assert(changed.drop_last() =~= s.drop_last());
        let c = crc_of(s.drop_last(), init);
        let old_byte = s[i];
        assert(old_byte != b ==> c ^ ((old_byte as u32) << 24u32) != c ^ ((b as u32) << 24u32))
            by (bit_vector);
        let x = c ^ ((old_byte as u32) << 24u32);
        let y = c ^ ((b as u32) << 24u32);
        if crc_byte(x) == crc_byte(y) {
            lemma_crc_byte_injective(x, y);
        }
    } else {
        assert(changed.drop_last() =~= s.drop_last().update(i, b));
        law_checksum_sees_every_byte(s.drop_last(), i, b, init);
        let c = crc_of(s.drop_last(), init);
        let d = crc_of(changed.drop_last(), init);
        let z = (s.last() as u32) << 24u32;
        assert(c != d ==> c ^ z != d ^ z) by (bit_vector);
        if crc_byte(c ^ z) == crc_byte(d ^ z) {
            lemma_crc_byte_injective(c ^ z, d ^ z);
        }
    }
}

/// A page with one byte of its packet data changed is an error, not a silent
/// skip.
pub proof fn law_corrupt_page_is_an_error(
    m: OggReaderModel,
    before: Seq<u8>,
    p: PageModel,
    after: Seq<u8>,
    i: int,
    b: u8,
)
    requires
        p.wf(),
        0 <= i < p.payload.len(),
        p.payload[i] != b,
        m.source.bytes == before + page_bytes(p).update(
            HEADER_LEN + p.segments.len() + i,
            b,
        ) + after,
        m.source.position == before.len(),
    ensures
        read_page_step(m).0 == Err::<(), Error>(Error::InvalidStream("page CRC mismatch")),
{
    law_page_round_trip(p);
    let page = page_bytes(p);
    let n = p.segments.len();
    let hurt = page.update(HEADER_LEN + n + i, b);
    let payload = p.payload.update(i, b);
    let bytes = m.source.bytes;
    let at = before.len() as int;
    let raw = page.subrange(0, HEADER_LEN as int);
    assert(bytes.subrange(at, at + HEADER_LEN) =~= raw);
    assert(bytes.subrange(at, at + 4) =~= raw.subrange(0, 4));
    let s1 = m.source.at(m.source.position + HEADER_LEN as nat);
    let m1 = OggReaderModel { source: s1, ..m };
    assert(next_header(m.source) == (Ok::<Option<Seq<u8>>, Error>(Some(raw)), s1));
    assert(s1.ahead(n) =~= p.segments);
    let s2 = s1.at(s1.position + n);
    assert(s2.ahead(p.payload.len()) =~= payload);
    let whole = without_crc(raw) + p.segments + p.payload;
    let lead = without_crc(raw) + p.segments;
    assert(without_crc(raw) + p.segments + payload =~= whole.update(lead.len() + i, b));
    law_checksum_sees_every_byte(whole, lead.len() + i, b, 0);
    assert(!crc_matches(raw, p.segments, payload, page_crc(p)));
    assert(read_page_body(m1, raw).0 == Err::<(), Error>(
        Error::InvalidStream("page CRC mismatch"),
    ));
}

/// A page that the stream ends inside is an error, not a clean end.
pub proof fn law_cut_page_is_an_error(m: OggReaderModel, before: Seq<u8>, p: PageModel, cut: int)
    requires
        p.wf(),
        0 < cut < page_bytes(p).len(),
        m.source.bytes == before + page_bytes(p).subrange(0, cut),
        m.source.position == before.len(),
    ensures
        read_page_step(m).0 == Err::<(), Error>(
            Error::InvalidStream(
                if cut < HEADER_LEN {
                    "stream ends inside a page header"
                } else {
                    "stream ends inside a page"
                },
            ),
        ),
{
    law_page_round_trip(p);
    if cut >= HEADER_LEN {
        let page = page_bytes(p);
        let n = p.segments.len();
        let bytes = m.source.bytes;
        let at = before.len() as int;
        let raw = page.subrange(0, HEADER_LEN as int);
        assert(bytes.subrange(at, at + HEADER_LEN) =~= raw);
        assert(bytes.subrange(at, at + 4) =~= raw.subrange(0, 4));
        let s1 = m.source.at(m.source.position + HEADER_LEN as nat);
        assert(next_header(m.source) == (Ok::<Option<Seq<u8>>, Error>(Some(raw)), s1));
        if cut >= HEADER_LEN + n {
            assert(s1.ahead(n) =~= p.segments);
        }
    }
}

/// Once a stream has errored or ended, polling gives nothing more, for good.
pub proof fn law_polling_stays_over(r: OggReaderModel)
    ensures
        ({
            let (polled, next, done) = poll_ogg(r, false);
            &&& (polled is None || polled->0 is Err) ==> done
            &&& done ==> poll_ogg(next, done) == (
                None::<Result<PacketModel, Error>>,
                next,
                true,
            )
        }),
{
}

} // verus!
