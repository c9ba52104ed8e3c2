//! Routing vectors as the device holds them: little-endian words.

use vstd::prelude::*;
use vstd::string::*;

use crate::text::{decimal, decimal_text, decimal_text_reads_back, digits, say_number};

verus! {

/// The word at byte `4 * i`, unsigned.
pub open spec fn word(raw: Seq<u8>, i: int) -> int {
    raw[4 * i] + 256 * raw[4 * i + 1] + 65536 * raw[4 * i + 2] + 16777216 * raw[4 * i + 3]
}

/// The same word read as two's complement.
pub open spec fn signed(word: int) -> int {
    if word < 0x8000_0000 {
        word
    } else {
        word - 0x1_0000_0000
    }
}

/// The ids a raw vector holds; bytes past the last whole word are no id.
pub open spec fn ids(raw: Seq<u8>) -> Seq<i32> {
    Seq::new(raw.len() / 4, |i: int| signed(word(raw, i)) as i32)
}

/// The four bytes of a word, lowest first.
pub open spec fn bytes_of(word: u32) -> Seq<u8> {
    seq![
        (word % 256) as u8,
        (word / 256 % 256) as u8,
        (word / 65536 % 256) as u8,
        (word / 16777216) as u8,
    ]
}

/// Words laid end to end.
pub open spec fn laid(words: Seq<u32>) -> Seq<u8>
    decreases words.len(),
{
    if words.len() == 0 {
        Seq::empty()
    } else {
        laid(words.drop_last()) + bytes_of(words.last())
    }
}

/// The `i`th word of `raw`.
pub fn word_at(raw: &[u8], i: usize) -> (w: u32)
    requires
        i < raw@.len() / 4,
    ensures
        w == word(raw@, i as int),
{
    let len: usize = raw.len();
    assert(4 * i + 3 < len);
    let at: usize = 4 * i;
    raw[at] as u32 + 256 * (raw[at + 1] as u32) + 65536 * (raw[at + 2] as u32) + 16777216 * (raw[at
        + 3] as u32)
}

/// A word read as two's complement.
pub fn as_signed(w: u32) -> (id: i32)
    ensures
        id == signed(w as int),
{
    if w < 0x8000_0000 {
        w as i32
    } else {
        -1 - (0xffff_ffff - w) as i32
    }
}

/// The `i`th id of `raw`.
pub fn id_at(raw: &[u8], i: usize) -> (id: i32)
    requires
        i < raw@.len() / 4,
    ensures
        id == ids(raw@)[i as int],
{
    as_signed(word_at(raw, i))
}

/// Lay `word` after what `raw` holds.
pub fn push_word(raw: &mut Vec<u8>, word: u32)
    ensures
        final(raw)@ == old(raw)@ + bytes_of(word),
{
    raw.push((word % 256) as u8);
    raw.push((word / 256 % 256) as u8);
    raw.push((word / 65536 % 256) as u8);
    raw.push((word / 16777216) as u8);
    assert(raw@ =~= old(raw)@ + bytes_of(word));
}

/// The ids of `raw`, row by row of `width`; a row that is not whole is none.
pub open spec fn rows(raw: Seq<u8>, width: nat) -> Seq<Seq<i32>> {
    Seq::new(
        if width == 0 { 0 } else { raw.len() / (4 * width) },
        |r: int| ids(raw).subrange(r * width, (r + 1) * width),
    )
}

/// The ids of `raw`, row by row of `width`.
pub fn read_rows(raw: &[u8], width: usize) -> (read: Vec<Vec<i32>>)
    requires
        width > 0,
        4 * width <= usize::MAX,
    ensures
        read@.len() == rows(raw@, width as nat).len(),
        forall|r: int|
            0 <= r < read@.len() ==> (#[trigger] read@[r])@ == rows(raw@, width as nat)[r],
{
    let len: usize = raw.len();
    let many: usize = len / (4 * width);
    let mut read: Vec<Vec<i32>> = Vec::new();
    let ghost all = ids(raw@);
    let mut r: usize = 0;
    while r < many
        invariant
            width > 0,
            4 * width <= usize::MAX,
            len == raw@.len(),
            many == len / (4 * width as int) as usize,
            many == rows(raw@, width as nat).len(),
            all == ids(raw@),
            r <= many,
            read@.len() == r,
            forall|q: int|
                0 <= q < r ==> (#[trigger] read@[q])@ == all.subrange(q * width, (q + 1) * width),
        decreases many - r,
    {
        let mut row: Vec<i32> = Vec::new();
        proof {
            lemma_row_inside(len as int, width as int, r as int);
        }
        let from: usize = r * width;
        let mut i: usize = 0;
        while i < width
            invariant
                i <= width,
                len == raw@.len(),
                from == r * width,
                from + width <= len / 4,
                all == ids(raw@),
                row@ == all.subrange(from as int, from + i),
            decreases width - i,
        {
            row.push(id_at(raw, from + i));
            i += 1;
            assert(row@ =~= all.subrange(from as int, from + i));
        }
        assert((r + 1) * width == from + width) by (nonlinear_arith)
            requires
                from == r * width,
        ;
        read.push(row);
        r += 1;
    }
    read
}

/// Where a routing vector's rows start in the arena and how many bytes they
/// are: `rows` of them from `row_offset` on, `width` words each, the vector
/// itself at `base`.
pub fn routing_span(base: u64, row_offset: u32, rows: u32, width: u32) -> (span: (u64, usize))
    requires
        base + 4 * (row_offset * width) <= u64::MAX,
        4 * (rows * width) <= usize::MAX,
    ensures
        span.0 == base + 4 * (row_offset * width),
        span.1 == 4 * (rows * width),
{
    assert(0 <= row_offset * width <= 0xffff_ffff * 0xffff_ffff && 0 <= rows * width <= 0xffff_ffff
        * 0xffff_ffff) by (nonlinear_arith)
        requires
            0 <= row_offset <= 0xffff_ffff,
            0 <= rows <= 0xffff_ffff,
            0 <= width <= 0xffff_ffff,
    ;
    let skip: u64 = row_offset as u64 * width as u64;
    let count: u64 = rows as u64 * width as u64;
    (base + 4 * skip, 4 * count as usize)
}

/// An id in decimal.
pub open spec fn id_text(id: int) -> Seq<char> {
    if id < 0 {
        "-"@ + decimal_text((-id) as nat)
    } else {
        decimal_text(id as nat)
    }
}

/// Ids in decimal, a space between any two.
pub open spec fn ids_text(row: Seq<i32>) -> Seq<char>
    decreases row.len(),
{
    if row.len() == 0 {
        Seq::empty()
    } else if row.len() == 1 {
        id_text(row[0] as int)
    } else {
        ids_text(row.drop_last()) + " "@ + id_text(row.last() as int)
    }
}

/// The ids of group `at`, a line a row.
pub open spec fn rows_text(at: nat, rows: Seq<Seq<i32>>) -> Seq<char>
    decreases rows.len(),
{
    if rows.len() == 0 {
        Seq::empty()
    } else {
        rows_text(at, rows.drop_last()) + decimal_text(at) + "\t"@ + ids_text(rows.last()) + "\n"@
    }
}

/// Say an id in decimal.
pub fn say_id(into: &mut String, id: i32)
    ensures
        final(into)@ == old(into)@ + id_text(id as int),
{
    if id < 0 {
        into.append("-");
        say_number(into, (-(id as i64)) as u64);
        assert(into@ =~= old(into)@ + id_text(id as int));
    } else {
        say_number(into, id as u64);
    }
}

/// The routes group `at` took, a line a row: the group, a tab, and the ids.
pub fn dump_rows(at: usize, raw: &[u8], width: usize) -> (text: String)
    requires
        width > 0,
        4 * width <= usize::MAX,
    ensures
        text@ == rows_text(at as nat, rows(raw@, width as nat)),
{
    let read: Vec<Vec<i32>> = read_rows(raw, width);
    let ghost all = rows(raw@, width as nat);
    let mut text: String = String::from_str("");
    proof {
        reveal_strlit("");
        assert(all.take(0) =~= Seq::<Seq<i32>>::empty());
        assert(text@ =~= Seq::<char>::empty());
    }
    let mut r: usize = 0;
    while r < read.len()
        invariant
            r <= read@.len(),
            read@.len() == all.len(),
            forall|q: int| 0 <= q < read@.len() ==> (#[trigger] read@[q])@ == all[q],
            text@ == rows_text(at as nat, all.take(r as int)),
        decreases read@.len() - r,
    {
        let ghost before = text@;
        say_number(&mut text, at as u64);
        text.append("\t");
        let row: &Vec<i32> = &read[r];
        let ghost lead = text@;
        let mut i: usize = 0;
        proof {
            assert(row@.take(0) =~= Seq::<i32>::empty());
            assert(lead =~= lead + ids_text(row@.take(0)));
        }
        while i < row.len()
            invariant
                i <= row@.len(),
                text@ == lead + ids_text(row@.take(i as int)),
            decreases row@.len() - i,
        {
            proof {
                assert(row@.take(i + 1).drop_last() =~= row@.take(i as int));
                assert(row@.take(i + 1).last() == row@[i as int]);
                if i == 0 {
                    assert(row@.take(1)[0] == row@[0]);
                }
            }
            if i > 0 {
                text.append(" ");
            }
            say_id(&mut text, row[i]);
            i += 1;
            assert(text@ =~= lead + ids_text(row@.take(i as int)));
        }
        text.append("\n");
        proof {
            assert(row@.take(row@.len() as int) =~= row@);
            assert(all.take(r + 1).drop_last() =~= all.take(r as int));
            assert(all.take(r + 1).last() == row@);
        }
        r += 1;
        assert(text@ =~= rows_text(at as nat, all.take(r as int)));
    }
    assert(all.take(all.len() as int) =~= all);
    text
}

/// A whole row lies inside the words there are.
proof fn lemma_row_inside(len: int, width: int, r: int)
    requires
        0 < width,
        0 <= r < len / (4 * width),
    ensures
        0 <= r * width,
        (r + 1) * width == r * width + width,
        r * width + width <= len / 4,
{
    assert((r + 1) * (4 * width) <= len) by (nonlinear_arith)
        requires
            0 < width,
            0 <= r,
            r + 1 <= len / (4 * width),
    ;
    assert((r + 1) * (4 * width) == 4 * ((r + 1) * width) && (r + 1) * width == r * width + width && r
        * width >= 0) by (nonlinear_arith)
        requires
            r >= 0,
            width > 0,
    ;
}

/// What laying words down and reading them back gives: the same words.
pub proof fn laid_words_read_back(words: Seq<u32>)
    ensures
        laid(words).len() == 4 * words.len(),
        forall|i: int| 0 <= i < words.len() ==> #[trigger] word(laid(words), i) == words[i],
    decreases words.len(),
{
    if words.len() > 0 {
        let head = words.drop_last();
        laid_words_read_back(head);
        let w = words.last();
        let all = laid(words);
        let n = head.len() as int;
        assert forall|i: int| 0 <= i < words.len() implies #[trigger] word(all, i) == words[i] by {
            if i < n {
                assert(word(laid(head), i) == head[i]);
                assert(all[4 * i] == laid(head)[4 * i]);
                assert(all[4 * i + 1] == laid(head)[4 * i + 1]);
                assert(all[4 * i + 2] == laid(head)[4 * i + 2]);
                assert(all[4 * i + 3] == laid(head)[4 * i + 3]);
            } else {
                assert(all[4 * n] == bytes_of(w)[0]);
                assert(all[4 * n + 1] == bytes_of(w)[1]);
                assert(all[4 * n + 2] == bytes_of(w)[2]);
                assert(all[4 * n + 3] == bytes_of(w)[3]);
                assert(w == w % 256 + 256 * (w / 256 % 256) + 65536 * (w / 65536 % 256) + 16777216 * (w
                    / 16777216)) by (bit_vector);
            }
        }
    }
}

/// An id is said as its decimal, with a minus sign where it is negative, and
/// a row of them with a space between two.
pub proof fn an_id_is_said_as_its_decimal(row: Seq<i32>, id: i32)
    ensures
        id >= 0 ==> digits(id_text(id as int)) && decimal(id_text(id as int)) == id,
        id < 0 ==> {
            let rest = id_text(id as int).drop_first();
            &&& id_text(id as int)[0] == '-'
            &&& digits(rest) && decimal(rest) == -id
        },
        ids_text(Seq::<i32>::empty()) == Seq::<char>::empty(),
        ids_text(seq![id]) == id_text(id as int),
        row.len() > 0 ==> ids_text(row.push(id)) == ids_text(row) + seq![' '] + id_text(id as int),
{
    reveal_strlit("-");
    reveal_strlit(" ");
    assert(" "@ =~= seq![' ']);
    assert("-"@ =~= seq!['-']);
    if id >= 0 {
        decimal_text_reads_back(id as nat);
    } else {
        decimal_text_reads_back((-id) as nat);
        assert(id_text(id as int).drop_first() =~= decimal_text((-id) as nat));
    }
    assert(row.push(id).drop_last() =~= row);
}

/// A word is laid low byte first, and read back is the signed id of as many
/// bits: the word itself, or less by all there are.
pub proof fn a_word_is_laid_low_byte_first(w: u32, raw: Seq<u8>, i: int)
    requires
        0 <= i < raw.len() / 4,
    ensures
        bytes_of(w).len() == 4,
        bytes_of(w)[0] + 0x100 * bytes_of(w)[1] + 0x1_0000 * bytes_of(w)[2] + 0x100_0000 * bytes_of(w)[3] == w,
        word(raw, i) == raw[4 * i] + 0x100 * raw[4 * i + 1] + 0x1_0000 * raw[4 * i + 2] + 0x100_0000 * raw[4 * i
            + 3],
        i32::MIN <= ids(raw)[i] <= i32::MAX,
        ids(raw)[i] == word(raw, i) || ids(raw)[i] == word(raw, i) - 0x1_0000_0000,
        ids(raw)[i] < 0 <==> raw[4 * i + 3] >= 0x80,
        ids(raw).len() == raw.len() / 4,
{
}

} // verus!
