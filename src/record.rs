//! Records: one stored line followed by a newline. Reading splits the real
//! data of a file on newlines and decodes each non-empty piece.
use vstd::prelude::*;
use vstd::utf8::encode_utf8;

use crate::codec::{utf8_text, decrypt_line, decrypted_line, encrypt_line, encrypted_line, utf8_or_empty};
use crate::config::MmapConfig;
use crate::region::{
    data_end, find_boundary, lemma_data_end, lemma_data_end_at, lemma_data_end_padded, padded,
};

verus! {

broadcast use vstd::utf8::group_utf8_lib;

/// The record terminator.
pub const NEWLINE: u8 = 10;

/// What is stored for `line`: its ciphertext in hexadecimal when encryption
/// is on, the line itself otherwise.
pub open spec fn stored_text(app_key: Seq<char>, encrypt: bool, line: Seq<char>) -> Seq<char> {
    if encrypt {
        encrypted_line(app_key, line)
    } else {
        line
    }
}

/// The bytes of the record for `line`.
pub open spec fn record_bytes(app_key: Seq<char>, encrypt: bool, line: Seq<char>) -> Seq<u8> {
    encode_utf8(stored_text(app_key, encrypt, line)) + seq![NEWLINE]
}

/// The text read back from one stored piece; a piece that cannot be read
/// gives the empty line.
pub open spec fn piece_text(app_key: Seq<char>, encrypt: bool, piece: Seq<u8>) -> Seq<char> {
    if encrypt {
        match decrypted_line(app_key, utf8_or_empty(piece)) {
            Ok(t) => t,
            Err(_) => Seq::empty(),
        }
    } else {
        utf8_or_empty(piece)
    }
}

/// The bytes after the last newline of `b`.
pub open spec fn open_piece(b: Seq<u8>) -> Seq<u8>
    decreases b.len(),
{
    if b.len() == 0 {
        b
    } else if b.last() == NEWLINE {
        Seq::empty()
    } else {
        open_piece(b.drop_last()).push(b.last())
    }
}

/// The non-empty pieces of `b` that a newline ends, in order.
pub open spec fn closed_pieces(b: Seq<u8>) -> Seq<Seq<u8>>
    decreases b.len(),
{
    if b.len() == 0 {
        seq![]
    } else if b.last() == NEWLINE && open_piece(b.drop_last()).len() > 0 {
        closed_pieces(b.drop_last()).push(open_piece(b.drop_last()))
    } else {
        closed_pieces(b.drop_last())
    }
}

/// The non-empty newline-separated pieces of `b`, in order.
pub open spec fn pieces(b: Seq<u8>) -> Seq<Seq<u8>> {
    if open_piece(b).len() > 0 {
        closed_pieces(b).push(open_piece(b))
    } else {
        closed_pieces(b)
    }
}

/// The lines read back from the bytes of a file: the pieces of its real
/// data, each decoded.
pub open spec fn file_texts(app_key: Seq<char>, encrypt: bool, b: Seq<u8>) -> Seq<Seq<char>> {
    pieces(b.take(data_end(b) as int)).map_values(|p: Seq<u8>| piece_text(app_key, encrypt, p))
}

/// The records of `lines`, one after another, in order.
pub open spec fn records_of(app_key: Seq<char>, encrypt: bool, lines: Seq<Seq<char>>) -> Seq<u8>
    decreases lines.len(),
{
    if lines.len() == 0 {
        seq![]
    } else {
        records_of(app_key, encrypt, lines.drop_last()) + record_bytes(
            app_key,
            encrypt,
            lines.last(),
        )
    }
}

/// The stored bytes of a line are one non-empty piece: they hold no newline.
pub open spec fn one_piece(b: Seq<u8>) -> bool {
    b.len() > 0 && forall|i: int| 0 <= i < b.len() ==> #[trigger] b[i] != NEWLINE
}

proof fn lemma_within_piece(b: Seq<u8>, s: Seq<u8>)
    requires
        b.len() == 0 || b.last() == NEWLINE,
        forall|i: int| 0 <= i < s.len() ==> #[trigger] s[i] != NEWLINE,
    ensures
        open_piece(b + s) == s,
        closed_pieces(b + s) == closed_pieces(b),
    decreases s.len(),
{
    if s.len() == 0 {
        assert(b + s =~= b);
    } else {
        let t = b + s;
        assert(t.drop_last() =~= b + s.drop_last());
        assert(t.last() == s[s.len() - 1]);
        lemma_within_piece(b, s.drop_last());
        assert(s.drop_last().push(s.last()) =~= s);
    }
}

/// Records written one after another split back into exactly the stored
/// forms of their lines, in write order, with none lost or repeated, as long
/// as each stored form is one non-empty piece.
pub proof fn lemma_pieces_of_records(app_key: Seq<char>, encrypt: bool, lines: Seq<Seq<char>>)
    requires
        forall|k: int|
            0 <= k < lines.len() ==> one_piece(
                #[trigger] encode_utf8(stored_text(app_key, encrypt, lines[k])),
            ),
    ensures
        pieces(records_of(app_key, encrypt, lines)) == lines.map_values(
            |l: Seq<char>| encode_utf8(stored_text(app_key, encrypt, l)),
        ),
        records_of(app_key, encrypt, lines).len() == 0 || records_of(
            app_key,
            encrypt,
            lines,
        ).last() == NEWLINE,
    decreases lines.len(),
{
    let r = records_of(app_key, encrypt, lines);
    if lines.len() == 0 {
        assert(pieces(r) =~= lines.map_values(
            |l: Seq<char>| encode_utf8(stored_text(app_key, encrypt, l)),
        ));
    } else {
        let prefix = lines.drop_last();
        assert forall|k: int| 0 <= k < prefix.len() implies one_piece(
            #[trigger] encode_utf8(stored_text(app_key, encrypt, prefix[k])),
        ) by {
            assert(prefix[k] == lines[k]);
        }
        lemma_pieces_of_records(app_key, encrypt, prefix);
        let b = records_of(app_key, encrypt, prefix);
        let st = encode_utf8(stored_text(app_key, encrypt, lines.last()));
        assert(lines.last() == lines[lines.len() - 1]);
        assert(one_piece(st));
        lemma_within_piece(b, st);
        assert(r =~= (b + st).push(NEWLINE));
        assert(r.drop_last() =~= b + st);
        assert(open_piece(r) =~= Seq::<u8>::empty());
        assert(closed_pieces(r) == closed_pieces(b).push(st));
        assert(open_piece(b) =~= Seq::<u8>::empty());
        assert(pieces(r) =~= lines.map_values(
            |l: Seq<char>| encode_utf8(stored_text(app_key, encrypt, l)),
        ));
    }
}

/// In plain mode a file that holds the records of `lines`, followed by any
/// zero padding, reads back as exactly `lines`, in write order, when each
/// line is non-empty and holds no newline.
pub proof fn lemma_plain_file_reads_back(
    app_key: Seq<char>,
    lines: Seq<Seq<char>>,
    pad: nat,
)
    requires
        forall|k: int| 0 <= k < lines.len() ==> one_piece(#[trigger] encode_utf8(lines[k])),
    ensures
        file_texts(app_key, false, padded(records_of(app_key, false, lines), pad)) == lines,
{
    let r = records_of(app_key, false, lines);
    assert forall|k: int| 0 <= k < lines.len() implies one_piece(
        #[trigger] encode_utf8(stored_text(app_key, false, lines[k])),
    ) by {
        assert(stored_text(app_key, false, lines[k]) == lines[k]);
    }
    lemma_pieces_of_records(app_key, false, lines);
    lemma_data_end_padded(r, pad);
    lemma_data_end(r);
    if r.len() > 0 {
        lemma_data_end_at(r, r.len());
    } else {
        lemma_data_end_at(r, 0);
    }
    let f = padded(r, pad);
    assert(f.take(data_end(f) as int) =~= r);
    let texts = file_texts(app_key, false, f);
    assert forall|k: int| 0 <= k < lines.len() implies #[trigger] texts[k] == lines[k] by {
        assert(pieces(r)[k] == encode_utf8(lines[k]));
    }
    assert(texts =~= lines);
}

/// Appends `b` to `v`.
pub fn append_bytes(v: &mut Vec<u8>, b: &[u8])
    ensures
        final(v)@ == old(v)@ + b@,
{
    let ghost start = v@;
    let mut i: usize = 0;
    while i < b.len()
        invariant
            i <= b@.len(),
            v@ == start + b@.take(i as int),
        decreases b@.len() - i,
    {
        v.push(b[i]);
        i = i + 1;
        proof {
            assert(b@.take(i as int) =~= b@.take(i - 1).push(b@[i - 1]));
        }
    }
    proof {
        assert(b@.take(i as int) =~= b@);
    }
}

/// The record for `line` under `config`: the line, encrypted when the
/// configuration asks for it, then a newline. Should the cipher fail, the
/// plain line is stored instead.
pub fn encode_record(config: &MmapConfig, line: &str) -> (r: Vec<u8>)
    ensures
        r@ == record_bytes(config@.app_key, config@.is_encrypt, line@),
{
    let mut out: Vec<u8> = Vec::new();
    if config.is_encrypt() {
        match encrypt_line(config.get_app_key(), line) {
            Ok(text) => append_bytes(&mut out, text.as_str().as_bytes()),
            Err(_) => append_bytes(&mut out, line.as_bytes()),
        }
    } else {
        append_bytes(&mut out, line.as_bytes());
    }
    out.push(NEWLINE);
    out
}

/// The text of `bytes`, or the empty string when they are not UTF-8.
pub fn text_or_empty(bytes: &[u8]) -> (r: String)
    ensures
        r@ == utf8_or_empty(bytes@),
{
    match utf8_text(vstd::slice::slice_to_vec(bytes)) {
        Some(s) => s,
        None => String::new(),
    }
}

/// Reads one stored piece back into its line. A piece that does not decode
/// gives the empty line; a piece that holds the stored form of a line gives
/// that line back.
pub fn decode_record(config: &MmapConfig, piece: &[u8]) -> (r: String)
    ensures
        r@ == piece_text(config@.app_key, config@.is_encrypt, piece@),
        forall|p: Seq<char>|
            piece@ == #[trigger] encode_utf8(stored_text(config@.app_key, config@.is_encrypt, p))
                ==> r@ == p,
{
    let text = text_or_empty(piece);
    if config.is_encrypt() {
        match decrypt_line(config.get_app_key(), text.as_str()) {
            Ok(s) => s,
            Err(_) => String::new(),
        }
    } else {
        text
    }
}

proof fn lemma_pieces_step(b: Seq<u8>, i: int)
    requires
        0 <= i < b.len(),
    ensures
        b.take(i + 1).drop_last() == b.take(i),
        b.take(i + 1).last() == b[i],
{
    assert(b.take(i + 1).drop_last() =~= b.take(i));
}

/// The lines stored in the bytes of one file: its real data is found by
/// the zero-padding scan, split on newlines, and each non-empty piece is
/// decoded, in file order.
pub fn file_lines(config: &MmapConfig, bytes: &[u8]) -> (r: Vec<String>)
    ensures
        r@.map_values(|s: String| s@) == file_texts(config@.app_key, config@.is_encrypt, bytes@),
{
    let end = find_boundary(bytes);
    proof {
        crate::region::lemma_data_end(bytes@);
    }
    let ghost data = bytes@.take(end as int);
    let ghost key = config@.app_key;
    let ghost enc = config@.is_encrypt;
    let mut out: Vec<String> = Vec::new();
    let mut start: usize = 0;
    let mut i: usize = 0;
    proof {
        assert(data.take(0) =~= Seq::<u8>::empty());
        assert(bytes@.subrange(0, 0) =~= open_piece(data.take(0)));
    }
    while i < end
        invariant
            key == config@.app_key,
            enc == config@.is_encrypt,
            end == data.len(),
            data.len() <= bytes@.len(),
            data == bytes@.take(end as int),
            start <= i <= end,
            bytes@.subrange(start as int, i as int) == open_piece(data.take(i as int)),
            out@.map_values(|s: String| s@) == closed_pieces(data.take(i as int)).map_values(
                |p: Seq<u8>| piece_text(key, enc, p),
            ),
        decreases end - i,
    {
        proof {
            lemma_pieces_step(data, i as int);
        }
        if bytes[i] == NEWLINE {
            if i > start {
                let piece = &bytes[start..i];
                assert(piece@ == bytes@.subrange(start as int, i as int));
                let line = decode_record(config, piece);
                assert(line@ == piece_text(key, enc, open_piece(data.take(i as int))));
                let ghost before = out@;
                out.push(line);
                proof {
                    let t = data.take(i + 1);
                    assert(closed_pieces(t) == closed_pieces(data.take(i as int)).push(
                        open_piece(data.take(i as int)),
                    ));
                    assert(out@ == before.push(line));
                    assert(out@.map_values(|s: String| s@) =~= before.map_values(|s: String| s@).push(line@));
                    assert(out@.map_values(|s: String| s@) =~= closed_pieces(
                        data.take(i + 1),
                    ).map_values(|p: Seq<u8>| piece_text(key, enc, p)));
                }
            }
            start = i + 1;
            proof {
                assert(bytes@.subrange(start as int, i + 1) =~= Seq::<u8>::empty());
            }
        } else {
            proof {
                assert(bytes@.subrange(start as int, i + 1) =~= bytes@.subrange(
                    start as int,
                    i as int,
                ).push(bytes@[i as int]));
            }
        }
        i = i + 1;
    }
    let ghost before = out@;
    if end > start {
        let line = decode_record(config, &bytes[start..end]);
        out.push(line);
        proof {
            assert(out@ == before.push(line));
            assert(out@.map_values(|s: String| s@) =~= before.map_values(|s: String| s@).push(line@));
        }
    }
    proof {
        assert(data.take(end as int) =~= data);
        assert(out@.map_values(|s: String| s@) =~= file_texts(key, enc, bytes@));
    }
    out
}

} // verus!
