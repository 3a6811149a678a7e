//! Decoding of the captured byte stream into text lines.
//!
//! The stream is split at newline bytes; a carriage return standing
//! right before a newline is dropped; a last line without a trailing
//! newline counts, while a trailing newline adds no empty line.  Every
//! line must be valid UTF-8, else the whole decode fails.

use crate::line::DecodeError;
use vstd::prelude::*;
use vstd::utf8::{decode_utf8, encode_utf8, valid_utf8};

verus! {

/// One trailing carriage return, dropped when a newline completed the
/// line.
pub open spec fn strip_cr(l: Seq<u8>) -> Seq<u8> {
    if l.len() > 0 && l.last() == 13 {
        l.drop_last()
    } else {
        l
    }
}

/// Fold over the bytes: the completed lines so far and the pending
/// bytes of an unfinished last line.
pub open spec fn scan_lines(s: Seq<u8>) -> (Seq<Seq<u8>>, Seq<u8>)
    decreases s.len(),
{
    if s.len() == 0 {
        (Seq::<Seq<u8>>::empty(), Seq::<u8>::empty())
    } else {
        let prev = scan_lines(s.drop_last());
        let b = s.last();
        if b == 10 {
            (prev.0.push(strip_cr(prev.1)), Seq::<u8>::empty())
        } else {
            (prev.0, prev.1.push(b))
        }
    }
}

/// The lines of the byte stream.
pub open spec fn byte_lines(s: Seq<u8>) -> Seq<Seq<u8>> {
    let sc = scan_lines(s);
    if sc.1.len() == 0 {
        sc.0
    } else {
        sc.0.push(sc.1)
    }
}

/// Whether every line reads as valid text.
pub open spec fn all_valid(ls: Seq<Seq<u8>>) -> bool {
    forall|i: int| 0 <= i < ls.len() ==> valid_utf8(#[trigger] ls[i])
}

/// The lines read as text.
pub open spec fn decode_all(ls: Seq<Seq<u8>>) -> Seq<Seq<char>> {
    ls.map_values(|l: Seq<u8>| decode_utf8(l))
}

/// Relies on String::from_utf8: it returns a string exactly when the
/// bytes are valid UTF-8, and the string holds those bytes read as
/// text.
#[verifier::external_body]
fn string_from_utf8(bytes: Vec<u8>) -> (r: Option<String>)
    ensures
        r is Some <==> valid_utf8(bytes@),
        r matches Some(s) ==> s@ == decode_utf8(bytes@) && encode_utf8(s@) == bytes@,
{
    String::from_utf8(bytes).ok()
}

/// The completed lines of a prefix of the stream stay completed lines
/// of the whole stream.
proof fn lemma_scan_prefix(s: Seq<u8>, i: int)
    requires
        0 <= i <= s.len(),
    ensures
        scan_lines(s.take(i)).0.len() <= scan_lines(s).0.len(),
        forall|m: int|
            0 <= m < scan_lines(s.take(i)).0.len() ==> #[trigger] scan_lines(s.take(i)).0[m]
                == scan_lines(s).0[m],
    decreases s.len() - i,
{
    if i < s.len() {
        lemma_scan_prefix(s, i + 1);
        assert(s.take(i + 1).drop_last() =~= s.take(i));
        assert(s.take(i + 1).last() == s[i]);
        assert forall|m: int| 0 <= m < scan_lines(s.take(i)).0.len() implies #[trigger] scan_lines(
            s.take(i),
        ).0[m] == scan_lines(s).0[m] by {
            assert(scan_lines(s.take(i)).0[m] == scan_lines(s.take(i + 1)).0[m]);
            assert(scan_lines(s.take(i + 1)).0[m] == scan_lines(s).0[m]);
        }
    } else {
        assert(s.take(i) =~= s);
    }
}

/// Every completed line of the stream is a line of the stream.
proof fn lemma_scan_in_byte_lines(s: Seq<u8>, m: int)
    requires
        0 <= m < scan_lines(s).0.len(),
    ensures
        byte_lines(s).len() > m,
        byte_lines(s)[m] == scan_lines(s).0[m],
{
}

/// Split the captured bytes into decoded text lines, or report that a
/// line is not valid text.
pub fn decode_err_lines(stderr: &[u8]) -> (r: Result<Vec<String>, DecodeError>)
    ensures
        r is Ok <==> all_valid(byte_lines(stderr@)),
        r matches Ok(lines) ==> lines.deep_view() == decode_all(byte_lines(stderr@)),
{
    let ghost all = stderr@;
    let mut out: Vec<String> = Vec::new();
    let mut cur: Vec<u8> = Vec::new();
    let mut i: usize = 0;
    proof {
        assert(all.take(0) =~= Seq::<u8>::empty());
        assert(out.deep_view() =~= decode_all(scan_lines(all.take(0)).0));
    }
    while i < stderr.len()
        invariant
            0 <= i <= all.len(),
            all == stderr@,
            cur@ == scan_lines(all.take(i as int)).1,
            out@.len() == scan_lines(all.take(i as int)).0.len(),
            all_valid(scan_lines(all.take(i as int)).0),
            out.deep_view() == decode_all(scan_lines(all.take(i as int)).0),
        decreases all.len() - i,
    {
        let b = stderr[i];
        let ghost sc = scan_lines(all.take(i as int));
        proof {
            assert(all.take(i as int + 1).drop_last() =~= all.take(i as int));
            assert(all.take(i as int + 1).last() == b);
        }
        if b == 10 {
            let ghost old_cur = cur@;
            if cur.len() > 0 && cur[cur.len() - 1] == 13 {
                cur.pop();
            }
            proof {
                assert(cur@ == strip_cr(old_cur));
            }
            let done = cur;
            cur = Vec::new();
            match string_from_utf8(done) {
                Some(s) => {
                    let ghost old_out = out@;
                    let ghost odv = out.deep_view();
                    let ghost sv = s@;
                    out.push(s);
                    proof {
                        let nsc = scan_lines(all.take(i as int + 1));
                        assert(nsc.0 == sc.0.push(strip_cr(sc.1)));
                        assert(sv == decode_utf8(strip_cr(sc.1)));
                        assert forall|m: int| 0 <= m < out@.len() implies out.deep_view()[m]
                            == decode_all(nsc.0)[m] by {
                            assert(out.deep_view()[m] == out@[m].deep_view());
                            assert(decode_all(nsc.0)[m] == decode_utf8(nsc.0[m]));
                            if m < old_out.len() {
                                assert(out@[m] == old_out[m]);
                                assert(odv[m] == old_out[m].deep_view());
                                assert(odv[m] == decode_all(sc.0)[m]);
                                assert(nsc.0[m] == sc.0[m]);
                            } else {
                                assert(out@[m] == s);
                                assert(nsc.0[m] == strip_cr(sc.1));
                            }
                        }
                        assert(out.deep_view() =~= decode_all(nsc.0));
                    }
                },
                None => {
                    proof {
                        let nsc = scan_lines(all.take(i as int + 1));
                        assert(nsc.0.len() == sc.0.len() + 1);
                        assert(!valid_utf8(nsc.0[sc.0.len() as int]));
                        lemma_scan_prefix(all, i as int + 1);
                        lemma_scan_in_byte_lines(all, sc.0.len() as int);
                        assert(!valid_utf8(byte_lines(all)[sc.0.len() as int]));
                    }
                    return Err(DecodeError);
                },
            }
        } else {
            cur.push(b);
        }
        i += 1;
    }
    proof {
        assert(all.take(i as int) =~= all);
    }
    let ghost sc = scan_lines(all);
    if cur.len() > 0 {
        match string_from_utf8(cur) {
            Some(s) => {
                let ghost old_out = out@;
                let ghost odv = out.deep_view();
                let ghost sv = s@;
                out.push(s);
                proof {
                    assert(byte_lines(all) == sc.0.push(sc.1));
                    assert(sv == decode_utf8(sc.1));
                    assert forall|m: int| 0 <= m < out@.len() implies out.deep_view()[m]
                        == decode_all(byte_lines(all))[m] by {
                        assert(out.deep_view()[m] == out@[m].deep_view());
                        assert(decode_all(byte_lines(all))[m] == decode_utf8(byte_lines(all)[m]));
                        if m < old_out.len() {
                            assert(out@[m] == old_out[m]);
                            assert(odv[m] == old_out[m].deep_view());
                            assert(odv[m] == decode_all(sc.0)[m]);
                            assert(byte_lines(all)[m] == sc.0[m]);
                        } else {
                            assert(out@[m] == s);
                            assert(byte_lines(all)[m] == sc.1);
                        }
                    }
                    assert(out.deep_view() =~= decode_all(byte_lines(all)));
                    assert forall|m: int| 0 <= m < byte_lines(all).len() implies valid_utf8(
                        #[trigger] byte_lines(all)[m],
                    ) by {
                        if m < sc.0.len() {
                            assert(byte_lines(all)[m] == sc.0[m]);
                        } else {
                            assert(byte_lines(all)[m] == sc.1);
                        }
                    }
                }
                Ok(out)
            },
            None => {
                proof {
                    assert(byte_lines(all) == sc.0.push(sc.1));
                    assert(!valid_utf8(byte_lines(all)[sc.0.len() as int]));
                }
                Err(DecodeError)
            },
        }
    } else {
        proof {
            assert(byte_lines(all) == sc.0);
        }
        Ok(out)
    }
}

} // verus!
