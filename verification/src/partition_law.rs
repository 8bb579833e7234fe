//! What a reader makes of the token partitions that the encoder puts together.
use crate::decoder;
use crate::encoder;
use crate::frame_tag;
use vstd::prelude::*;

verus! {

proof fn lemma_table_len(parts: Seq<Seq<u8>>, m: nat)
    ensures
        encoder::size_table(parts, m).len() == 3 * m,
    decreases m,
{
    if m > 0 {
        lemma_table_len(parts, (m - 1) as nat);
    }
}

proof fn lemma_table_at(parts: Seq<Seq<u8>>, m: nat, i: int)
    requires
        0 <= i < m,
    ensures
        encoder::size_table(parts, m).len() == 3 * m,
        encoder::size_table(parts, m)[3 * i] == encoder::bytes3(parts[i].len() as int)[0],
        encoder::size_table(parts, m)[3 * i + 1] == encoder::bytes3(parts[i].len() as int)[1],
        encoder::size_table(parts, m)[3 * i + 2] == encoder::bytes3(parts[i].len() as int)[2],
    decreases m,
{
    lemma_table_len(parts, (m - 1) as nat);
    if i < m - 1 {
        lemma_table_at(parts, (m - 1) as nat, i);
    }
}

/// Bytes that stand in front of the first `i` partitions, with them.
spec fn joined_len(parts: Seq<Seq<u8>>, i: int) -> int {
    encoder::joined(parts, i as nat).len() as int
}

proof fn lemma_joined_at(parts: Seq<Seq<u8>>, m: nat, i: int)
    requires
        0 <= i < m,
    ensures
        joined_len(parts, i + 1) == joined_len(parts, i) + parts[i].len(),
        joined_len(parts, i + 1) <= joined_len(parts, m as int),
        encoder::joined(parts, m).subrange(joined_len(parts, i), joined_len(parts, i + 1))
            =~= parts[i],
    decreases m,
{
    let all = encoder::joined(parts, m);
    let before = encoder::joined(parts, (m - 1) as nat);
    if i < m - 1 {
        lemma_joined_at(parts, (m - 1) as nat, i);
        assert(all.subrange(joined_len(parts, i), joined_len(parts, i + 1)) =~= before.subrange(
            joined_len(parts, i),
            joined_len(parts, i + 1),
        ));
    }
}

proof fn lemma_number3(buf: Seq<u8>, at: int, n: int)
    requires
        0 <= n < 0x100_0000,
        buf[at] == encoder::bytes3(n)[0],
        buf[at + 1] == encoder::bytes3(n)[1],
        buf[at + 2] == encoder::bytes3(n)[2],
    ensures
        frame_tag::number3(buf, at) == n,
{
}

proof fn lemma_part_start(head: Seq<u8>, parts: Seq<Seq<u8>>, i: nat)
    requires
        i < parts.len(),
        forall|j: int| 0 <= j < parts.len() - 1 ==> (#[trigger] parts[j]).len() < 0x100_0000,
    ensures
        decoder::part_start(
            head + encoder::frame_tail(parts),
            head.len() as int,
            parts.len() as int,
            i,
        ) == head.len() + 3 * (parts.len() - 1) + joined_len(parts, i as int),
    decreases i,
{
    if i > 0 {
        let n = parts.len();
        let j = i - 1;
        let buf = head + encoder::frame_tail(parts);
        let table = encoder::size_table(parts, (n - 1) as nat);
        lemma_part_start(head, parts, j as nat);
        lemma_table_at(parts, (n - 1) as nat, j);
        lemma_joined_at(parts, n, j);
        assert(parts[j].len() < 0x100_0000);
        let at = head.len() + 3 * j;
        assert(buf[at] == table[3 * j]);
        assert(buf[at + 1] == table[3 * j + 1]);
        assert(buf[at + 2] == table[3 * j + 2]);
        lemma_number3(buf, at, parts[j].len() as int);
    }
}

/// A reader that meets a table of sizes and the partitions behind it cuts out
/// the partitions that were put together. A size past 24 bits is out of the
/// table's reach; the last partition has no entry.
pub proof fn law_partitions_read_back(head: Seq<u8>, parts: Seq<Seq<u8>>)
    requires
        parts.len() >= 1,
        forall|j: int| 0 <= j < parts.len() - 1 ==> (#[trigger] parts[j]).len() < 0x100_0000,
    ensures
        ({
            let buf = head + encoder::frame_tail(parts);
            &&& decoder::part_fault(buf, head.len() as int, parts.len() as int) is None
            &&& forall|i: int|
                0 <= i < parts.len() ==> #[trigger] decoder::part_bytes(
                    buf,
                    head.len() as int,
                    parts.len() as int,
                    i,
                ) == parts[i]
        }),
{
    let n = parts.len();
    let buf = head + encoder::frame_tail(parts);
    let table = encoder::size_table(parts, (n - 1) as nat);
    let body = encoder::joined(parts, n);
    lemma_table_len(parts, (n - 1) as nat);
    assert(buf.len() == head.len() + 3 * (n - 1) + body.len());
    lemma_part_start(head, parts, (n - 1) as nat);
    lemma_joined_at(parts, n, n - 1);
    assert forall|i: int| 0 <= i < n implies #[trigger] decoder::part_bytes(
        buf,
        head.len() as int,
        n as int,
        i,
    ) == parts[i] by {
        lemma_part_start(head, parts, i as nat);
        lemma_joined_at(parts, n, i);
        if i < n - 1 {
            lemma_part_start(head, parts, (i + 1) as nat);
        }
        let from = head.len() + 3 * (n - 1) + joined_len(parts, i);
        let to = head.len() + 3 * (n - 1) + joined_len(parts, i + 1);
        assert(buf.subrange(from, to) =~= body.subrange(
            joined_len(parts, i),
            joined_len(parts, i + 1),
        ));
    }
}

} // verus!
