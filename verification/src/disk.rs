//! A fragmented disk of file blocks.  Compacting by blocks pulls single
//! blocks from the back into the gaps; compacting by files moves whole
//! files into the first gap that fits, highest file id first.
//!
//! The two compactors follow intricate index walks, so their
//! specifications trace those walks step for step as partial
//! functions: `None` marks exactly the layouts on which a walk runs
//! off an index, and each compactor requires a `Some`.

use vstd::prelude::*;
use crate::text::digit_val;
use crate::text::is_digit_char;

verus! {

/// One block of a file: the file's id and the block's disk position.
#[derive(Debug, PartialEq, Eq, Copy, Clone, Structural)]
pub struct FileBlock {
    pub id: usize,
    pub position: usize,
}

/// Pulls `count` blocks from the back of the layout into the gap,
/// assigning consecutive positions.  Carries the accumulator, the back
/// index and the write position.
pub open spec fn fill_gap(
    blocks: Seq<FileBlock>,
    back: int,
    position: int,
    count: int,
    acc: Seq<FileBlock>,
) -> Option<(Seq<FileBlock>, int, int)>
    decreases count,
{
    if count <= 0 {
        Some((acc, back, position))
    } else if back < 1 || back >= blocks.len() || position >= usize::MAX {
        None
    } else {
        fill_gap(
            blocks,
            back - 1,
            position + 1,
            count - 1,
            acc.push(FileBlock { id: blocks[back].id, position: (position + 1) as usize }),
        )
    }
}

/// The back index only shrinks, and never below zero.
proof fn lemma_fill_gap_bounds(
    blocks: Seq<FileBlock>,
    back: int,
    position: int,
    count: int,
    acc: Seq<FileBlock>,
)
    requires
        back >= 0,
        fill_gap(blocks, back, position, count, acc) is Some,
    ensures
        0 <= fill_gap(blocks, back, position, count, acc).unwrap().1 <= back,
    decreases count,
{
    if count > 0 {
        lemma_fill_gap_bounds(
            blocks,
            back - 1,
            position + 1,
            count - 1,
            acc.push(FileBlock { id: blocks[back].id, position: (position + 1) as usize }),
        );
    }
}

/// The block-compacting walk: emit the front block, fill the gap to the
/// next front block with blocks pulled from the back, and advance.
pub open spec fn compact_rec(
    blocks: Seq<FileBlock>,
    front: int,
    back: int,
    position: int,
    acc: Seq<FileBlock>,
) -> Option<Seq<FileBlock>>
    decreases back + 1 - front + blocks.len() + 2,
    via compact_rec_decreases
{
    if front > back || front < 0 || back < 0 {
        Some(acc)
    } else if front + 1 >= blocks.len() || position > usize::MAX {
        None
    } else {
        let acc1 = acc.push(FileBlock { id: blocks[front].id, position: position as usize });
        if blocks[front + 1].position < blocks[front].position {
            None
        } else {
            let distance = blocks[front + 1].position - blocks[front].position;
            let filled = if distance > 1 {
                fill_gap(blocks, back, position, distance - 1, acc1)
            } else {
                Some((acc1, back, position))
            };
            match filled {
                None => None,
                Some((acc2, back2, pos2)) => {
                    if back2 < 0 || pos2 >= usize::MAX {
                        None
                    } else {
                        compact_rec(blocks, front + 1, back2, pos2 + 1, acc2)
                    }
                },
            }
        }
    }
}

#[via_fn]
proof fn compact_rec_decreases(
    blocks: Seq<FileBlock>,
    front: int,
    back: int,
    position: int,
    acc: Seq<FileBlock>,
) {
    if !(front > back || front < 0 || back < 0) && front + 1 < blocks.len() && position
        <= usize::MAX {
        let acc1 = acc.push(FileBlock { id: blocks[front].id, position: position as usize });
        if blocks[front + 1].position >= blocks[front].position {
            let distance = blocks[front + 1].position - blocks[front].position;
            if distance > 1 {
                if fill_gap(blocks, back, position, distance - 1, acc1) is Some {
                    lemma_fill_gap_bounds(blocks, back, position, distance - 1, acc1);
                }
            }
        }
    }
}

/// The compacted-by-blocks layout of a disk.
pub open spec fn blocks_compacted(blocks: Seq<FileBlock>) -> Option<Seq<FileBlock>> {
    compact_rec(blocks, 0, blocks.len() - 1, 0, Seq::empty())
}

/// Compacts the disk block by block, exactly as the traced walk
/// describes.  Callers must bring a layout on which the walk
/// completes; every layout parsed from a disk map is one.
#[verifier::loop_isolation(false)]
pub fn compact_blocks(blocks: &Vec<FileBlock>) -> (r: Vec<FileBlock>)
    requires
        blocks@.len() >= 1,
        blocks_compacted(blocks@) is Some,
    ensures
        r@ == blocks_compacted(blocks@).unwrap(),
{
    let ghost s = blocks@;
    let mut compacted: Vec<FileBlock> = Vec::new();
    let mut front: usize = 0;
    let mut back: usize = blocks.len() - 1;
    let mut position: usize = 0;
    proof {
        assert(compacted@ =~= Seq::<FileBlock>::empty());
    }
    while front < back + 1
        invariant
            front <= blocks@.len(),
            back < blocks@.len(),
            blocks_compacted(s) == compact_rec(
                s,
                front as int,
                back as int,
                position as int,
                compacted@,
            ),
        decreases back + 1 + blocks@.len() - front,
    {
        proof {
            assert(compact_rec(s, front as int, back as int, position as int, compacted@)
                is Some);
        }
        let ghost front0 = front as int;
        let ghost back0 = back as int;
        let ghost pos0 = position as int;
        let ghost acc0 = compacted@;
        let front_block = blocks[front];
        let next_block = blocks[front + 1];
        compacted.push(FileBlock { id: front_block.id, position });
        let ghost acc1 = compacted@;
        let distance = next_block.position - front_block.position;
        if distance > 1 {
            proof {
                assert(fill_gap(s, back0, pos0, distance - 1, acc1) is Some);
            }
            let mut k: usize = 1;
            while k < distance
                invariant
                    1 <= k <= distance,
                    back < blocks@.len(),
                    back as int <= back0,
                    fill_gap(s, back0, pos0, distance - 1, acc1) == fill_gap(
                        s,
                        back as int,
                        position as int,
                        distance - k,
                        compacted@,
                    ),
                    fill_gap(s, back0, pos0, distance - 1, acc1) is Some,
                decreases distance - k,
            {
                proof {
                    assert(fill_gap(s, back as int, position as int, distance - k, compacted@)
                        is Some);
                }
                position = position + 1;
                let back_block = blocks[back];
                compacted.push(FileBlock { id: back_block.id, position });
                back = back - 1;
                k = k + 1;
            }
            proof {
                assert(fill_gap(s, back as int, position as int, 0, compacted@) == Some(
                    (compacted@, back as int, position as int),
                ));
            }
        }
        proof {
            assert(compact_rec(s, front0, back0, pos0, acc0) == compact_rec(
                s,
                front0 + 1,
                back as int,
                position + 1,
                compacted@,
            ));
        }
        position = position + 1;
        front = front + 1;
    }
    proof {
        assert(compact_rec(s, front as int, back as int, position as int, compacted@)
            == Some(compacted@));
    }
    compacted
}

/// The ascending indices of the blocks of file `id`, among the first
/// `n` entries.
pub open spec fn file_indexes(cur: Seq<FileBlock>, id: int, n: int) -> Seq<int>
    decreases n,
{
    if n <= 0 {
        seq![]
    } else {
        let rest = file_indexes(cur, id, n - 1);
        if cur[n - 1].id == id {
            rest.push(n - 1)
        } else {
            rest
        }
    }
}

/// Scans the windows of the layout for the first gap before the file
/// that fits it: `Some(None)` means no gap, the outer `None` an index
/// failure of the walk.
pub open spec fn gap_scan(cur: Seq<FileBlock>, file: Seq<int>, need: int, i: int) -> Option<
    Option<(int, int)>,
>
    decreases cur.len() - i,
{
    if i < 0 || i + 1 >= cur.len() {
        Some(None)
    } else if file.len() == 0 {
        None
    } else if i < file[0] {
        if cur[i + 1].position < cur[i].position {
            None
        } else if cur[i + 1].position - cur[i].position > need {
            Some(Some((i + 1, cur[i].position + 1)))
        } else {
            gap_scan(cur, file, need, i + 1)
        }
    } else {
        gap_scan(cur, file, need, i + 1)
    }
}

/// Moves the `k`th and later blocks of the file into the gap, one
/// remove-and-insert at a time.
pub open spec fn apply_moves(
    cur: Seq<FileBlock>,
    file: Seq<int>,
    index: int,
    position: int,
    k: int,
) -> Option<Seq<FileBlock>>
    decreases file.len() - k,
{
    if k >= file.len() {
        Some(cur)
    } else {
        let old_index = file[k];
        if old_index < 0 || old_index >= cur.len() || position + k > usize::MAX || position + k
            < 0 {
            None
        } else {
            let moved = FileBlock { id: cur[old_index].id, position: (position + k) as usize };
            let removed = cur.remove(old_index);
            if index + k < 0 || index + k > removed.len() {
                None
            } else {
                apply_moves(removed.insert(index + k, moved), file, index, position, k + 1)
            }
        }
    }
}

/// One whole-file move: find the file's blocks, find the first fitting
/// gap left of it, and relocate the blocks if a gap exists.
pub open spec fn move_file(cur: Seq<FileBlock>, id: int) -> Option<Seq<FileBlock>> {
    let file = file_indexes(cur, id, cur.len() as int);
    match gap_scan(cur, file, file.len() as int, 0) {
        None => None,
        Some(None) => Some(cur),
        Some(Some((index, position))) => apply_moves(cur, file, index, position, 0),
    }
}

/// The whole-file compaction, from file `id` down to zero.
pub open spec fn files_compacted_from(cur: Seq<FileBlock>, id: int) -> Option<Seq<FileBlock>>
    decreases id + 1,
{
    if id < 0 {
        Some(cur)
    } else {
        match move_file(cur, id) {
            None => None,
            Some(next) => files_compacted_from(next, id - 1),
        }
    }
}

/// The compacted-by-files layout of a disk.
pub open spec fn files_compacted(blocks: Seq<FileBlock>) -> Option<Seq<FileBlock>> {
    if blocks.len() == 0 {
        Some(blocks)
    } else {
        files_compacted_from(blocks, blocks.last().id as int)
    }
}

/// The ascending indices of the blocks of one file.
#[verifier::loop_isolation(false)]
fn collect_file(cur: &Vec<FileBlock>, id: usize) -> (file: Vec<usize>)
    ensures
        file@.map_values(|x: usize| x as int) == file_indexes(cur@, id as int, cur@.len() as int),
{
    let mut file: Vec<usize> = Vec::new();
    let mut i: usize = 0;
    proof {
        assert(file@.map_values(|x: usize| x as int) =~= file_indexes(cur@, id as int, 0));
    }
    while i < cur.len()
        invariant
            i <= cur@.len(),
            file@.map_values(|x: usize| x as int) == file_indexes(cur@, id as int, i as int),
        decreases cur@.len() - i,
    {
        if cur[i].id == id {
            let ghost prev = file@;
            file.push(i);
            proof {
                assert(file@.map_values(|x: usize| x as int) =~= prev.map_values(
                    |x: usize| x as int,
                ).push(i as int));
            }
        }
        i = i + 1;
    }
    file
}

/// Compacts the disk file by file, exactly as the traced walk
/// describes.  Callers must bring a layout on which the walk
/// completes; every layout parsed from a disk map is one.
#[verifier::loop_isolation(false)]
pub fn compact_files(blocks: &Vec<FileBlock>) -> (r: Vec<FileBlock>)
    requires
        files_compacted(blocks@) is Some,
    ensures
        r@ == files_compacted(blocks@).unwrap(),
{
    let mut compacted = crate::text::copy_vec(blocks);
    if blocks.len() == 0 {
        return compacted;
    }
    let top_id = blocks[blocks.len() - 1].id;
    let mut id_above: u128 = top_id as u128 + 1;
    while id_above > 0
        invariant
            id_above <= top_id as u128 + 1,
            files_compacted(blocks@) == files_compacted_from(compacted@, id_above as int - 1),
        decreases id_above,
    {
        let id = (id_above - 1) as usize;
        proof {
            assert(files_compacted_from(compacted@, id as int) is Some);
        }
        let ghost cur = compacted@;
        let ghost file_spec = file_indexes(cur, id as int, cur.len() as int);
        let file = collect_file(&compacted, id);

        // Find the first gap, left of the file, wide enough for it.
        let mut gap: Option<(usize, usize)> = None;
        let mut i: usize = 0;
        let mut scanning = compacted.len() >= 1;
        proof {
            if !scanning {
                assert(gap_scan(cur, file_spec, file_spec.len() as int, 0) == Some(
                    None::<(int, int)>,
                ));
            }
        }
        while scanning
            invariant
                compacted@ == cur,
                file@.map_values(|x: usize| x as int) == file_spec,
                scanning ==> i + 1 <= cur.len(),
                scanning ==> gap is None,
                scanning ==> gap_scan(cur, file_spec, file_spec.len() as int, 0) == gap_scan(
                    cur,
                    file_spec,
                    file_spec.len() as int,
                    i as int,
                ),
                !scanning ==> match gap {
                    None => gap_scan(cur, file_spec, file_spec.len() as int, 0) == Some(
                        None::<(int, int)>,
                    ),
                    Some((gi, gp)) => gap_scan(cur, file_spec, file_spec.len() as int, 0)
                        == Some(Some((gi as int, gp as int))),
                },
                gap_scan(cur, file_spec, file_spec.len() as int, 0) is Some,
            decreases cur.len() - i, (if scanning {
                1int
            } else {
                0int
            }),
        {
            if i + 1 >= compacted.len() {
                scanning = false;
            } else {
                proof {
                    assert(gap_scan(cur, file_spec, file_spec.len() as int, i as int) is Some);
                    assert(file_spec.len() != 0);
                    assert(file@.len() >= 1);
                    assert(file_spec[0] == file@[0] as int);
                }
                if i < file[0] {
                    let lo = compacted[i].position;
                    let hi = compacted[i + 1].position;
                    if hi - lo > file.len() {
                        gap = Some((i + 1, lo + 1));
                        scanning = false;
                    } else {
                        i = i + 1;
                    }
                } else {
                    i = i + 1;
                }
            }
        }

        match gap {
            Some((index, position)) => {
                proof {
                    assert(move_file(cur, id as int) == apply_moves(
                        cur,
                        file_spec,
                        index as int,
                        position as int,
                        0,
                    ));
                }
                let mut k: usize = 0;
                while k < file.len()
                    invariant
                        k <= file@.len(),
                        file@.map_values(|x: usize| x as int) == file_spec,
                        apply_moves(cur, file_spec, index as int, position as int, 0)
                            == apply_moves(
                            compacted@,
                            file_spec,
                            index as int,
                            position as int,
                            k as int,
                        ),
                        apply_moves(cur, file_spec, index as int, position as int, 0) is Some,
                    decreases file@.len() - k,
                {
                    proof {
                        assert(apply_moves(
                            compacted@,
                            file_spec,
                            index as int,
                            position as int,
                            k as int,
                        ) is Some);
                        assert(file_spec[k as int] == file@[k as int] as int);
                    }
                    proof {
                        assert(0 <= file_spec[k as int] < compacted@.len());
                        assert(position + k <= usize::MAX);
                        assert(index + k <= compacted@.len() - 1);
                    }
                    let old_index = file[k];
                    let slot_bound = compacted.len();
                    proof {
                        assert(index + k < slot_bound);
                    }
                    let mut moved = compacted.remove(old_index);
                    moved.position = position + k;
                    compacted.insert(index + k, moved);
                    k = k + 1;
                }
                proof {
                    assert(move_file(cur, id as int) == Some(compacted@));
                }
            },
            None => {
                proof {
                    assert(move_file(cur, id as int) == Some(compacted@));
                }
            },
        }
        id_above = id_above - 1;
    }
    compacted
}

/// The checksum of the first `n` blocks: the sum of id times position.
pub open spec fn checksum_upto(blocks: Seq<FileBlock>, n: int) -> int
    decreases n,
{
    if n <= 0 {
        0
    } else {
        checksum_upto(blocks, n - 1) + blocks[n - 1].id * blocks[n - 1].position
    }
}

/// Partial checksums are bounded by the whole.
proof fn lemma_checksum_mono(blocks: Seq<FileBlock>, m: int, n: int)
    requires
        0 <= m <= n <= blocks.len(),
    ensures
        checksum_upto(blocks, m) <= checksum_upto(blocks, n),
    decreases n - m,
{
    if m < n {
        assert(blocks[n - 1].id * blocks[n - 1].position >= 0) by (nonlinear_arith);
        lemma_checksum_mono(blocks, m, n - 1);
    }
}

/// Sums id times position over all blocks.
#[verifier::loop_isolation(false)]
pub fn compute_checksum(blocks: Vec<FileBlock>) -> (checksum: usize)
    requires
        checksum_upto(blocks@, blocks@.len() as int) <= usize::MAX,
    ensures
        checksum == checksum_upto(blocks@, blocks@.len() as int),
{
    let mut checksum: u128 = 0;
    let mut i: usize = 0;
    proof {
        lemma_checksum_mono(blocks@, 0, blocks@.len() as int);
    }
    while i < blocks.len()
        invariant
            i <= blocks@.len(),
            checksum == checksum_upto(blocks@, i as int),
            0 <= checksum <= usize::MAX,
        decreases blocks@.len() - i,
    {
        proof {
            lemma_checksum_mono(blocks@, i + 1, blocks@.len() as int);
            assert(blocks@[i as int].id * blocks@[i as int].position >= 0) by (nonlinear_arith);
        }
        let b = blocks[i];
        checksum = checksum + (b.id as u128) * (b.position as u128);
        i = i + 1;
    }
    checksum as usize
}

/// Appends `count` blocks of file `id` at consecutive positions.
pub open spec fn emit_file(acc: Seq<FileBlock>, id: int, position: int, count: int) -> Seq<
    FileBlock,
>
    decreases count,
{
    if count <= 0 {
        acc
    } else {
        emit_file(
            acc.push(FileBlock { id: id as usize, position: position as usize }),
            id,
            position + 1,
            count - 1,
        )
    }
}

/// The disk-map walk: digits alternate between file sizes and gap
/// sizes, file ids count up from zero.
pub open spec fn parse_rec(
    s: Seq<char>,
    i: int,
    id: int,
    position: int,
    file_turn: bool,
    acc: Seq<FileBlock>,
) -> Option<Seq<FileBlock>>
    decreases s.len() - i,
{
    if i < 0 || i >= s.len() {
        Some(acc)
    } else if !is_digit_char(s[i]) {
        None
    } else if position + digit_val(s[i]) > usize::MAX || id >= usize::MAX || id < 0 || position
        < 0 {
        None
    } else {
        let d = digit_val(s[i]);
        if file_turn {
            parse_rec(s, i + 1, id + 1, position + d, false, emit_file(acc, id, position, d))
        } else {
            parse_rec(s, i + 1, id, position + d, true, acc)
        }
    }
}

/// The blocks of a disk-map text.
pub open spec fn parsed_blocks(s: Seq<char>) -> Option<Seq<FileBlock>> {
    parse_rec(s, 0, 0, 0, true, Seq::empty())
}

/// Parses a disk map of alternating file and gap sizes.  Returns `None`
/// exactly when a character is not a digit or a position leaves the
/// machine range.
#[verifier::loop_isolation(false)]
pub fn parse_disk_map(input: &str) -> (r: Option<Vec<FileBlock>>)
    ensures
        (r is Some) <==> parsed_blocks(input@) is Some,
        r is Some ==> (r->0)@ == parsed_blocks(input@).unwrap(),
{
    let v = crate::text::chars_of(input);
    let ghost s = input@;
    let mut blocks: Vec<FileBlock> = Vec::new();
    let mut id: usize = 0;
    let mut position: usize = 0;
    let mut file_turn = true;
    let mut i: usize = 0;
    proof {
        assert(blocks@ =~= Seq::<FileBlock>::empty());
    }
    while i < v.len()
        invariant
            i <= s.len(),
            v@ == s,
            parsed_blocks(s) == parse_rec(
                s,
                i as int,
                id as int,
                position as int,
                file_turn,
                blocks@,
            ),
        decreases s.len() - i,
    {
        let c = v[i];
        if !('0' <= c && c <= '9') {
            return None;
        }
        let d = (c as u32 as u64 - '0' as u32 as u64) as usize;
        if position > usize::MAX - d || id == usize::MAX {
            return None;
        }
        if file_turn {
            let mut k: usize = 0;
            let ghost target = emit_file(blocks@, id as int, position as int, d as int);
            while k < d
                invariant
                    k <= d,
                    position + d <= usize::MAX,
                    target == emit_file(blocks@, id as int, position + k, d - k),
                decreases d - k,
            {
                blocks.push(FileBlock { id, position: position + k });
                k = k + 1;
            }
            proof {
                assert(blocks@ == target);
            }
            id = id + 1;
        }
        position = position + d;
        file_turn = !file_turn;
        i = i + 1;
    }
    Some(blocks)
}

} // verus!
