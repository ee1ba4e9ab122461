//! An almanac of seeds and of maps that lead from seeds to soil and on, step
//! by step, to locations. A map names ranges of sources with the
//! destinations they go to; any other number goes to itself.

use vstd::prelude::*;
use vstd::string::StringSliceAdditionalSpecFns;
use crate::numbers::{parse_usize, unsigned};
use crate::text::{content, content_of, NEWLINE};
use crate::words::{
    rows_of, same_bytes, split, split_bytes, split_once, split_once_bytes, split_str,
    split_str_bytes, starts_with, strip_prefix,
};

verus! {

/// The byte that parts the numbers of a line, a blank.
pub const BLANK: u8 = 32;

/// One range of a map as a value of mathematics: where its destinations
/// begin, where its sources begin, and how many there are.
pub struct Stretch {
    pub dst: nat,
    pub src: nat,
    pub len: nat,
}

/// A map as a value of mathematics.
pub struct Chart {
    pub from: Seq<u8>,
    pub to: Seq<u8>,
    pub entries: Seq<Stretch>,
}

/// Whether `v` is a source of the range.
pub open spec fn holds(e: Stretch, v: nat) -> bool {
    e.src <= v < e.src + e.len
}

/// Whether the ranges of a map are sound: none is empty, none reaches
/// beyond the machine word, and no two share a source.
pub open spec fn sound(entries: Seq<Stretch>) -> bool {
    &&& forall|i: int|
        0 <= i < entries.len() ==> {
            let e = #[trigger] entries[i];
            e.len >= 1 && e.src + e.len <= usize::MAX && e.dst + e.len <= usize::MAX
        }
    &&& forall|i: int, j: int|
        0 <= i < j < entries.len() ==> (#[trigger] entries[i]).src + entries[i].len <= (
        #[trigger] entries[j]).src || entries[j].src + entries[j].len <= entries[i].src
}

/// Where a number goes by a map: if it is a source of a range, to the
/// destination as far into the range; else to itself.
pub open spec fn passes(entries: Seq<Stretch>, v: nat) -> nat {
    if exists|i: int| 0 <= i < entries.len() && holds(#[trigger] entries[i], v) {
        let i = choose|i: int| 0 <= i < entries.len() && holds(#[trigger] entries[i], v);
        (entries[i].dst + (v - entries[i].src)) as nat
    } else {
        v
    }
}

/// The numbers among the first `k` pieces, if each is a number that fits.
pub open spec fn numbers(pieces: Seq<Seq<u8>>, k: int) -> Option<Seq<nat>>
    decreases k,
{
    if k <= 0 {
        Some(Seq::empty())
    } else {
        match (numbers(pieces, k - 1), unsigned(pieces[k - 1])) {
            (Some(before), Some(v)) => if v <= usize::MAX {
                Some(before.push(v))
            } else {
                None
            },
            _ => None,
        }
    }
}

/// The numbers of a line, which are parted by single blanks.
pub open spec fn line_numbers(line: Seq<u8>) -> Option<Seq<nat>> {
    numbers(split(line, BLANK), split(line, BLANK).len() as int)
}

/// The range that a line names: three numbers.
pub open spec fn stretch(line: Seq<u8>) -> Option<Stretch> {
    match line_numbers(line) {
        Some(v) => if v.len() == 3 {
            Some(Stretch { dst: v[0], src: v[1], len: v[2] })
        } else {
            None
        },
        None => None,
    }
}

/// The ranges that the lines from the second to the `k`-th name.
pub open spec fn stretches(lines: Seq<Seq<u8>>, k: int) -> Option<Seq<Stretch>>
    decreases k,
{
    if k <= 1 {
        Some(Seq::empty())
    } else {
        match (stretches(lines, k - 1), stretch(lines[k - 1])) {
            (Some(before), Some(e)) => Some(before.push(e)),
            _ => None,
        }
    }
}

/// Whether the sources of the ranges begin in rising order.
pub open spec fn ascending(list: Seq<Stretch>) -> bool {
    forall|i: int, j: int|
        0 <= i < j < list.len() ==> (#[trigger] list[i]).src <= (#[trigger] list[j]).src
}

/// Where a range goes into a list: behind the last range whose sources
/// begin no later than its own, looked for from the back.
pub open spec fn place(list: Seq<Stretch>, e: Stretch) -> int
    decreases list.len(),
{
    if list.len() == 0 || list.last().src <= e.src {
        list.len() as int
    } else {
        place(list.drop_last(), e)
    }
}

/// The ranges of a list in the order in which their sources begin; ranges
/// whose sources begin alike keep their order.
pub open spec fn by_source(list: Seq<Stretch>) -> Seq<Stretch>
    decreases list.len(),
{
    if list.len() == 0 {
        list
    } else {
        let before = by_source(list.drop_last());
        before.insert(place(before, list.last()), list.last())
    }
}

/// The names in the head of a map: what it leads from and what it leads to.
/// The head reads `from-to-to map:`.
pub open spec fn head(line: Seq<u8>) -> Option<(Seq<u8>, Seq<u8>)> {
    match split_once(line, "-to-".spec_bytes()) {
        Some((from, remain)) => match split_once(remain, " ".spec_bytes()) {
            Some((to, rest)) => if rest == "map:".spec_bytes() {
                Some((from, to))
            } else {
                None
            },
            None => None,
        },
        None => None,
    }
}

/// The map that a block of lines describes: a head, and a range on each
/// line that follows. The map holds the ranges in the order in which their
/// sources begin.
pub open spec fn chart(block: Seq<u8>) -> Option<Chart> {
    let lines = split(block, NEWLINE);
    match (head(lines[0]), stretches(lines, lines.len() as int)) {
        (Some((from, to)), Some(entries)) => Some(
            Chart { from, to, entries: by_source(entries) },
        ),
        _ => None,
    }
}

/// The maps that the blocks from the second to the `k`-th describe. No two
/// maps may lead from the same.
pub open spec fn charts(blocks: Seq<Seq<u8>>, k: int) -> Option<Seq<Chart>>
    decreases k,
{
    if k <= 1 {
        Some(Seq::empty())
    } else {
        match (charts(blocks, k - 1), chart(blocks[k - 1])) {
            (Some(before), Some(c)) => if exists|i: int|
                0 <= i < before.len() && (#[trigger] before[i]).from == c.from {
                None
            } else {
                Some(before.push(c))
            },
            _ => None,
        }
    }
}

/// What a text describes: the seeds in its first block, which is the line
/// `seeds:` with numbers, and the maps in the blocks that follow. Blocks are
/// parted by empty lines.
pub open spec fn almanac(text: Seq<u8>) -> Option<(Seq<nat>, Seq<Chart>)> {
    let blocks = split_str(text, "\n\n".spec_bytes());
    if blocks.len() >= 2 && starts_with(blocks[0], "seeds: ".spec_bytes()) {
        match (
            line_numbers(blocks[0].skip("seeds: ".spec_bytes().len() as int)),
            charts(blocks, blocks.len() as int),
        ) {
            (Some(seeds), Some(maps)) => Some((seeds, maps)),
            _ => None,
        }
    } else {
        None
    }
}

/// The place of the map that leads from `name`.
pub open spec fn leads_from(maps: Seq<Chart>, name: Seq<u8>, i: int) -> bool {
    0 <= i < maps.len() && maps[i].from == name
}

/// Whether the ranges of each map of the way are sound.
pub open spec fn passable(maps: Seq<Chart>, way: Seq<int>) -> bool {
    forall|i: int| 0 <= i < way.len() ==> sound(maps[#[trigger] way[i]].entries)
}

/// The maps to pass, in order, from `name` to a location, of which there
/// are at most `fuel`. Nothing if a map is missing or empty, or if more
/// maps than there are would have to be passed.
pub open spec fn route(maps: Seq<Chart>, name: Seq<u8>, fuel: nat) -> Option<Seq<int>>
    decreases fuel,
{
    if fuel == 0 {
        None
    } else if exists|i: int| leads_from(maps, name, i) {
        let i = choose|i: int| leads_from(maps, name, i);
        if maps[i].entries.len() == 0 {
            None
        } else if maps[i].to == "location".spec_bytes() {
            Some(seq![i])
        } else {
            match route(maps, maps[i].to, (fuel - 1) as nat) {
                Some(rest) => Some(seq![i] + rest),
                None => None,
            }
        }
    } else {
        None
    }
}

/// Where a number goes by the first `k` maps of a route.
pub open spec fn travels(maps: Seq<Chart>, way: Seq<int>, v: nat, k: int) -> nat
    decreases k,
{
    if k <= 0 {
        v
    } else {
        passes(maps[way[k - 1]].entries, travels(maps, way, v, k - 1))
    }
}

/// The location of a seed.
pub open spec fn location(maps: Seq<Chart>, way: Seq<int>, seed: nat) -> nat {
    travels(maps, way, seed, way.len() as int)
}

/// The lesser of two numbers.
pub open spec fn lesser(a: nat, b: nat) -> nat {
    if a <= b {
        a
    } else {
        b
    }
}

/// The lowest location of the first `k` seeds, of which there is at least
/// one.
pub open spec fn lowest(maps: Seq<Chart>, way: Seq<int>, seeds: Seq<nat>, k: int) -> nat
    decreases k,
{
    if k <= 1 {
        location(maps, way, seeds[0])
    } else {
        lesser(lowest(maps, way, seeds, k - 1), location(maps, way, seeds[k - 1]))
    }
}

/// The lowest location of the `k` seeds from `start` on; the greatest
/// number of the machine word if `k` is zero.
pub open spec fn lowest_from(maps: Seq<Chart>, way: Seq<int>, start: nat, k: nat) -> nat
    decreases k,
{
    if k == 0 {
        usize::MAX as nat
    } else {
        lesser(
            lowest_from(maps, way, start, (k - 1) as nat),
            location(maps, way, (start + k - 1) as nat),
        )
    }
}

/// The lowest location of the seeds of the first `k` pairs, each pair being
/// the first seed of a range and the number of its seeds.
pub open spec fn lowest_ranges(maps: Seq<Chart>, way: Seq<int>, seeds: Seq<nat>, k: int) -> nat
    decreases k,
{
    if k <= 0 {
        usize::MAX as nat
    } else {
        lesser(
            lowest_ranges(maps, way, seeds, k - 1),
            lowest_from(maps, way, seeds[2 * k - 2], seeds[2 * k - 1]),
        )
    }
}

/// The answer to the first question: the lowest location of a seed.
/// Nothing if a map on the way has ranges that are not sound.
pub open spec fn nearest(text: Seq<u8>) -> Option<nat> {
    match almanac(text) {
        Some((seeds, maps)) => match route(maps, "seed".spec_bytes(), maps.len()) {
            Some(way) => if seeds.len() >= 1 && passable(maps, way) {
                Some(lowest(maps, way, seeds, seeds.len() as int))
            } else {
                None
            },
            None => None,
        },
        None => None,
    }
}

/// The answer to the second question: the lowest location of a seed, where
/// the seeds are read as pairs of a first seed and a number of seeds.
/// Nothing if a seed is left over, if a range of seeds reaches beyond the
/// machine word, or if a map on the way has ranges that are not sound.
pub open spec fn nearest_of_ranges(text: Seq<u8>) -> Option<nat> {
    match almanac(text) {
        Some((seeds, maps)) => match route(maps, "seed".spec_bytes(), maps.len()) {
            Some(way) => if seeds.len() >= 1 && seeds.len() % 2 == 0 && passable(maps, way)
                && forall|k: int|
                0 <= k < seeds.len() / 2 ==> #[trigger] seeds[2 * k] + seeds[2 * k + 1]
                    <= usize::MAX {
                Some(lowest_ranges(maps, way, seeds, seeds.len() as int / 2))
            } else {
                None
            },
            None => None,
        },
        None => None,
    }
}

/// One range of a map.
pub struct MapEntry {
    pub dst_start: usize,
    pub src_start: usize,
    pub len: usize,
}

impl View for MapEntry {
    type V = Stretch;

    open spec fn view(&self) -> Stretch {
        Stretch { dst: self.dst_start as nat, src: self.src_start as nat, len: self.len as nat }
    }
}

/// A map.
pub struct Mapping {
    pub from: Vec<u8>,
    pub to: Vec<u8>,
    pub entries: Vec<MapEntry>,
}

/// The ranges of a vector.
pub open spec fn stretches_of(v: Seq<MapEntry>) -> Seq<Stretch> {
    Seq::new(v.len(), |i: int| v[i]@)
}

impl View for Mapping {
    type V = Chart;

    open spec fn view(&self) -> Chart {
        Chart { from: self.from@, to: self.to@, entries: stretches_of(self.entries@) }
    }
}

/// The maps of a vector.
pub open spec fn charts_of(v: Seq<Mapping>) -> Seq<Chart> {
    Seq::new(v.len(), |i: int| v[i]@)
}

/// The numbers of a vector.
pub open spec fn nats(v: Seq<usize>) -> Seq<nat> {
    Seq::new(v.len(), |i: int| v[i] as nat)
}

/// What an almanac holds.
pub struct Almanac {
    pub seeds: Vec<usize>,
    pub maps: Vec<Mapping>,
}

/// In a list in rising order, the place of a range parts the ranges whose
/// sources begin no later than its own from those whose sources begin
/// later.
pub proof fn lemma_place(list: Seq<Stretch>, e: Stretch)
    requires
        ascending(list),
    ensures
        0 <= place(list, e) <= list.len(),
        forall|j: int| 0 <= j < place(list, e) ==> (#[trigger] list[j]).src <= e.src,
        forall|j: int| place(list, e) <= j < list.len() ==> (#[trigger] list[j]).src > e.src,
    decreases list.len(),
{
    if list.len() > 0 && list.last().src > e.src {
        let rest = list.drop_last();
        assert forall|i: int, j: int| 0 <= i < j < rest.len() implies (#[trigger] rest[i]).src <= (
        #[trigger] rest[j]).src by {
            assert(rest[i] == list[i] && rest[j] == list[j]);
        }
        lemma_place(rest, e);
        assert forall|j: int| 0 <= j < place(list, e) implies (#[trigger] list[j]).src
            <= e.src by {
            assert(list[j] == rest[j]);
        }
        assert forall|j: int| place(list, e) <= j < list.len() implies (#[trigger] list[j]).src
            > e.src by {
            if j < rest.len() {
                assert(list[j] == rest[j]);
            }
        }
    } else if list.len() > 0 {
        assert forall|j: int| 0 <= j < list.len() implies (#[trigger] list[j]).src <= e.src by {
            if j < list.len() - 1 {
                assert(list[j].src <= list[list.len() - 1].src);
            }
        }
    }
}

/// The order by sources changes no range, loses none and adds none: each
/// range occurs in it as often as in the list. And the sources of its ranges
/// begin in rising order.
pub proof fn lemma_by_source(list: Seq<Stretch>)
    ensures
        by_source(list).len() == list.len(),
        by_source(list).to_multiset() == list.to_multiset(),
        ascending(by_source(list)),
    decreases list.len(),
{
    if list.len() > 0 {
        let rest = list.drop_last();
        let e = list.last();
        lemma_by_source(rest);
        let before = by_source(rest);
        lemma_place(before, e);
        let i = place(before, e);
        let after = before.insert(i, e);
        assert(after.remove(i) =~= before);
        assert(list =~= rest.push(e));
        vstd::seq_lib::to_multiset_remove(after, i);
        vstd::seq_lib::to_multiset_build(rest, e);
        after.to_multiset_ensures();
        assert(after[i] == e);
        assert(after.contains(e));
        assert(after.to_multiset() =~= before.to_multiset().insert(e));
        assert forall|a: int, b: int| 0 <= a < b < after.len() implies (#[trigger] after[a]).src
            <= (#[trigger] after[b]).src by {
            if a < i && b > i {
                assert(after[a] == before[a] && after[b] == before[b - 1]);
            } else if a < i && b < i {
                assert(after[a] == before[a] && after[b] == before[b]);
            } else if a > i {
                assert(after[a] == before[a - 1] && after[b] == before[b - 1]);
            } else if a == i {
                assert(after[b] == before[b - 1]);
            } else {
                assert(after[a] == before[a]);
            }
        }
    }
}

proof fn lemma_numbers_stuck(pieces: Seq<Seq<u8>>, k: int, n: int)
    requires
        0 <= k <= n,
        numbers(pieces, k).is_none(),
    ensures
        numbers(pieces, n).is_none(),
    decreases n - k,
{
    if k < n {
        lemma_numbers_stuck(pieces, k, n - 1);
    }
}

proof fn lemma_stretches_stuck(lines: Seq<Seq<u8>>, k: int, n: int)
    requires
        1 <= k <= n,
        stretches(lines, k).is_none(),
    ensures
        stretches(lines, n).is_none(),
    decreases n - k,
{
    if k < n {
        lemma_stretches_stuck(lines, k, n - 1);
    }
}

proof fn lemma_charts_stuck(blocks: Seq<Seq<u8>>, k: int, n: int)
    requires
        1 <= k <= n,
        charts(blocks, k).is_none(),
    ensures
        charts(blocks, n).is_none(),
    decreases n - k,
{
    if k < n {
        lemma_charts_stuck(blocks, k, n - 1);
    }
}

/// Reads the numbers of a line.
pub fn parse_numbers(line: &[u8]) -> (r: Option<Vec<usize>>)
    ensures
        match line_numbers(line@) {
            Some(s) => r.is_some() && nats(r.unwrap()@) == s,
            None => r.is_none(),
        },
{
    let pieces = split_bytes(line, BLANK);
    let ghost rows = rows_of(pieces@);
    let n = pieces.len();
    let mut out: Vec<usize> = Vec::new();
    let mut k: usize = 0;
    proof {
        assert(nats(out@) =~= Seq::<nat>::empty());
    }
    while k < n
        invariant
            k <= n,
            n == pieces@.len(),
            rows == rows_of(pieces@),
            rows == split(line@, BLANK),
            numbers(rows, k as int) == Some(nats(out@)),
        decreases n - k,
    {
        let ghost before = nats(out@);
        proof {
            assert(rows[k as int] == pieces@[k as int]@);
        }
        match parse_usize(pieces[k].as_slice()) {
            Some(v) => {
                out.push(v);
                proof {
                    assert(nats(out@) =~= before.push(v as nat));
                }
            },
            None => {
                proof {
                    lemma_numbers_stuck(rows, k + 1, n as int);
                }
                return None;
            },
        }
        k += 1;
    }
    Some(out)
}

impl MapEntry {
    /// Reads a range from its line.
    pub fn from_input(input: &[u8]) -> (r: Option<MapEntry>)
        ensures
            match stretch(input@) {
                Some(e) => r.is_some() && r.unwrap()@ == e,
                None => r.is_none(),
            },
    {
        match parse_numbers(input) {
            Some(v) => {
                if v.len() == 3 {
                    proof {
                        assert(nats(v@)[0] == v@[0] && nats(v@)[1] == v@[1]
                            && nats(v@)[2] == v@[2]);
                    }
                    Some(MapEntry { dst_start: v[0], src_start: v[1], len: v[2] })
                } else {
                    None
                }
            },
            None => None,
        }
    }
}

/// Whether the ranges are sound.
fn check_sound(entries: &Vec<MapEntry>) -> (r: bool)
    ensures
        r == sound(stretches_of(entries@)),
{
    let ghost list = stretches_of(entries@);
    let n = entries.len();
    let mut i: usize = 0;
    while i < n
        invariant
            i <= n,
            n == entries@.len(),
            list == stretches_of(entries@),
            forall|a: int|
                0 <= a < i ==> {
                    let e = #[trigger] list[a];
                    e.len >= 1 && e.src + e.len <= usize::MAX && e.dst + e.len <= usize::MAX
                },
            forall|a: int, b: int|
                0 <= a < b < i ==>
                    (#[trigger] list[a]).src + list[a].len <= (#[trigger] list[b]).src
                    || list[b].src + list[b].len <= list[a].src,
        decreases n - i,
    {
        let e = &entries[i];
        proof {
            assert(list[i as int] == entries@[i as int]@);
        }
        if e.len == 0 || e.len > usize::MAX - e.src_start || e.len > usize::MAX - e.dst_start {
            return false;
        }
        let mut j: usize = 0;
        while j < i
            invariant
                j <= i < n,
                n == entries@.len(),
                list == stretches_of(entries@),
                e == entries@[i as int],
                e.src_start + e.len <= usize::MAX,
                forall|a: int|
                    0 <= a < i ==> {
                        let x = #[trigger] list[a];
                        x.len >= 1 && x.src + x.len <= usize::MAX && x.dst + x.len <= usize::MAX
                    },
                forall|a: int|
                    0 <= a < j ==> (#[trigger] list[a]).src + list[a].len <= list[i as int].src
                        || list[i as int].src + list[i as int].len <= list[a].src,
            decreases i - j,
        {
            let f = &entries[j];
            proof {
                assert(list[j as int] == entries@[j as int]@);
                assert(list[i as int] == entries@[i as int]@);
            }
            if !(f.src_start + f.len <= e.src_start || e.src_start + e.len <= f.src_start) {
                return false;
            }
            j += 1;
        }
        i += 1;
    }
    true
}

impl Mapping {
    /// Reads the head of a map; the map has no ranges yet.
    pub fn from_input(input: &[u8]) -> (r: Option<Mapping>)
        ensures
            match head(input@) {
                Some((from, to)) => r.is_some() && r.unwrap().from@ == from && r.unwrap().to@ == to
                    && r.unwrap().entries@.len() == 0,
                None => r.is_none(),
            },
    {
        let (from, remain) = match split_once_bytes(input, "-to-".as_bytes()) {
            Some(parts) => parts,
            None => {
                return None;
            },
        };
        let (to, rest) = match split_once_bytes(remain, " ".as_bytes()) {
            Some(parts) => parts,
            None => {
                return None;
            },
        };
        if !same_bytes(rest, "map:".as_bytes()) {
            return None;
        }
        Some(
            Mapping {
                from: vstd::slice::slice_to_vec(from),
                to: vstd::slice::slice_to_vec(to),
                entries: Vec::new(),
            },
        )
    }

    /// Reads a map from its block of lines. The map holds the ranges that
    /// the lines name, each as often as it is named, in the order in which
    /// their sources begin.
    pub fn from_block(block: &[u8]) -> (r: Option<Mapping>)
        ensures
            match chart(block@) {
                Some(c) => {
                    &&& r.is_some()
                    &&& r.unwrap()@ == c
                    &&& ascending(c.entries)
                    &&& c.entries.to_multiset() == stretches(
                        split(block@, NEWLINE),
                        split(block@, NEWLINE).len() as int,
                    ).unwrap().to_multiset()
                },
                None => r.is_none(),
            },
    {
        let lines = split_bytes(block, NEWLINE);
        let ghost rows = rows_of(lines@);
        proof {
            crate::words::lemma_split_len(block@, NEWLINE);
            assert(rows[0] == lines@[0]@);
        }
        let n = lines.len();
        let mut map = match Mapping::from_input(lines[0].as_slice()) {
            Some(map) => map,
            None => {
                return None;
            },
        };
        let ghost names = (map.from@, map.to@);
        let mut k: usize = 1;
        proof {
            assert(stretches_of(map.entries@) =~= Seq::<Stretch>::empty());
        }
        while k < n
            invariant
                1 <= k <= n,
                n == lines@.len(),
                rows == rows_of(lines@),
                rows == split(block@, NEWLINE),
                head(rows[0]) == Some(names),
                names == (map.from@, map.to@),
                stretches(rows, k as int).is_some(),
                by_source(stretches(rows, k as int).unwrap()) == stretches_of(map.entries@),
            decreases n - k,
        {
            let ghost read = stretches(rows, k as int).unwrap();
            proof {
                assert(rows[k as int] == lines@[k as int]@);
            }
            match MapEntry::from_input(lines[k].as_slice()) {
                Some(entry) => {
                    proof {
                        assert(read.push(entry@).drop_last() =~= read);
                    }
                    map.insert(entry);
                },
                None => {
                    proof {
                        lemma_stretches_stuck(rows, k + 1, n as int);
                    }
                    return None;
                },
            }
            k += 1;
        }
        proof {
            lemma_by_source(stretches(rows, n as int).unwrap());
        }
        Some(map)
    }

    /// Puts a range into the map, behind the last range whose sources begin
    /// no later than its own.
    pub fn insert(&mut self, entry: MapEntry)
        ensures
            final(self).from == old(self).from,
            final(self).to == old(self).to,
            final(self)@.entries == old(self)@.entries.insert(
                place(old(self)@.entries, entry@),
                entry@,
            ),
    {
        let ghost list = self@.entries;
        let mut i: usize = self.entries.len();
        proof {
            assert(list.take(i as int) =~= list);
        }
        while i > 0
            invariant
                i <= self.entries@.len(),
                *self == *old(self),
                list == self@.entries,
                place(list, entry@) == place(list.take(i as int), entry@),
            ensures
                place(list, entry@) == i,
            decreases i,
        {
            proof {
                assert(list.take(i as int).last() == self.entries@[i - 1]@);
                assert(list.take(i as int).drop_last() =~= list.take(i - 1));
            }
            if self.entries[i - 1].src_start <= entry.src_start {
                break;
            }
            i -= 1;
        }
        let ghost view = entry@;
        self.entries.insert(i, entry);
        proof {
            assert(stretches_of(self.entries@) =~= list.insert(i as int, view));
        }
    }

    /// Where `value` goes by this map, and how many numbers from `value` on
    /// go to the numbers that follow.
    pub fn map_entry(&self, value: usize) -> (r: (usize, usize))
        requires
            sound(self@.entries),
            self@.entries.len() >= 1,
        ensures
            r.0 == passes(self@.entries, value as nat),
            value < usize::MAX ==> r.1 >= 1 && r.0 < usize::MAX,
            value + r.1 <= usize::MAX,
            forall|t: nat| t < r.1 ==>
                #[trigger] passes(self@.entries, value as nat + t) == r.0 + t,
    {
        let ghost list = self@.entries;
        let n = self.entries.len();
        let mut next: usize = usize::MAX;
        let mut i: usize = 0;
        while i < n
            invariant
                i <= n,
                n == self.entries@.len(),
                list == self@.entries,
                sound(list),
                value <= next,
                value < next || value == usize::MAX,
                forall|a: int| 0 <= a < i ==> !holds(#[trigger] list[a], value as nat),
                forall|a: int| 0 <= a < i && (#[trigger] list[a]).src > value ==>
                    next <= list[a].src,
            decreases n - i,
        {
            let e = &self.entries[i];
            proof {
                assert(list[i as int] == self.entries@[i as int]@);
            }
            if e.src_start <= value && value - e.src_start < e.len {
                let offset = value - e.src_start;
                proof {
                    let v = value as nat;
                    assert(holds(list[i as int], v));
                    assert forall|t: nat| t < e.len - offset implies #[trigger] passes(list, v + t)
                        == e.dst_start + offset + t by {
                        assert(holds(list[i as int], v + t));
                        let c = choose|c: int| 0 <= c < list.len()
                            && holds(#[trigger] list[c], v + t);
                        if c != i {
                            if c < i {
                                assert(list[c].src + list[c].len <= list[i as int].src
                                    || list[i as int].src
                                    + list[i as int].len <= list[c].src);
                            } else {
                                assert(list[i as int].src + list[i as int].len <= list[c].src
                                    || list[c].src
                                    + list[c].len <= list[i as int].src);
                            }
                        }
                    }
                    assert(passes(list, v + 0) == e.dst_start + offset + 0);
                }
                return (e.dst_start + offset, e.len - offset);
            }
            if e.src_start > value && e.src_start < next {
                next = e.src_start;
            }
            i += 1;
        }
        proof {
            let v = value as nat;
            assert forall|t: nat| t < next - value implies #[trigger] passes(list, v + t) == value
                + t by {
                if exists|c: int| 0 <= c < list.len() && holds(#[trigger] list[c], v + t) {
                    let c = choose|c: int| 0 <= c < list.len() && holds(#[trigger] list[c], v + t);
                    assert(!holds(list[c], v));
                    if list[c].src > value {
                        assert(next <= list[c].src);
                    }
                }
            }
        }
        (value, next - value)
    }
}

/// Where `seed` goes by the maps of the way, and how many seeds from it on
/// go to the locations that follow.
fn locate(maps: &Vec<Mapping>, way: &Vec<usize>, seed: usize) -> (r: (usize, usize))
    requires
        seed < usize::MAX,
        forall|i: int|
            0 <= i < way@.len() ==> (#[trigger] way@[i]) < maps@.len() && sound(
                maps@[way@[i] as int]@.entries,
            ) && maps@[way@[i] as int]@.entries.len() >= 1,
    ensures
        r.0 == location(charts_of(maps@), ints(way@), seed as nat),
        r.1 >= 1,
        seed + r.1 <= usize::MAX,
        forall|t: nat|
            t < r.1 ==> #[trigger] location(charts_of(maps@), ints(way@),
                seed as nat + t) == r.0 + t,
{
    let ghost charts = charts_of(maps@);
    let ghost steps = ints(way@);
    let n = way.len();
    let mut cur = seed;
    let mut room = usize::MAX - seed;
    let mut k: usize = 0;
    while k < n
        invariant
            k <= n,
            n == way@.len(),
            charts == charts_of(maps@),
            steps == ints(way@),
            forall|i: int|
                0 <= i < way@.len() ==> (#[trigger] way@[i]) < maps@.len() && sound(
                    maps@[way@[i] as int]@.entries,
                ) && maps@[way@[i] as int]@.entries.len() >= 1,
            cur < usize::MAX,
            room >= 1,
            seed + room <= usize::MAX,
            cur == travels(charts, steps, seed as nat, k as int),
            forall|t: nat|
                t < room ==> #[trigger] travels(charts, steps, seed as nat + t,
                    k as int) == cur + t,
        decreases n - k,
    {
        let map = &maps[way[k]];
        proof {
            assert(steps[k as int] == way@[k as int]);
            assert(charts[way@[k as int] as int] == maps@[way@[k as int] as int]@);
        }
        let (mapped, span) = map.map_entry(cur);
        let less = if span < room {
            span
        } else {
            room
        };
        proof {
            assert forall|t: nat| t < less implies #[trigger] travels(
                charts,
                steps,
                seed as nat + t,
                k + 1,
            ) == mapped + t by {
                assert(travels(charts, steps, seed as nat + t, k as int) == cur + t);
                assert(passes(map@.entries, cur as nat + t) == mapped + t);
            }
        }
        cur = mapped;
        room = less;
        k += 1;
    }
    (cur, room)
}

/// The numbers of a vector of places.
pub open spec fn ints(v: Seq<usize>) -> Seq<int> {
    Seq::new(v.len(), |i: int| v[i] as int)
}

/// Whether no two maps lead from the same.
pub open spec fn orderly(maps: Seq<Chart>) -> bool {
    forall|i: int, j: int|
        0 <= i < j < maps.len() ==> (#[trigger] maps[i]).from != (#[trigger] maps[j]).from
}

/// Whether the ranges of each map of the way are sound.
fn check_way(maps: &Vec<Mapping>, way: &Vec<usize>) -> (r: bool)
    requires
        forall|i: int| 0 <= i < way@.len() ==> (#[trigger] way@[i]) < maps@.len(),
    ensures
        r == passable(charts_of(maps@), ints(way@)),
        r ==> forall|i: int|
            0 <= i < way@.len() ==> sound(maps@[(#[trigger] way@[i]) as int]@.entries),
{
    let ghost charts = charts_of(maps@);
    let ghost steps = ints(way@);
    let n = way.len();
    let mut k: usize = 0;
    while k < n
        invariant
            k <= n,
            n == way@.len(),
            charts == charts_of(maps@),
            steps == ints(way@),
            forall|i: int| 0 <= i < way@.len() ==> (#[trigger] way@[i]) < maps@.len(),
            forall|i: int| 0 <= i < k ==> sound(charts[#[trigger] steps[i]].entries),
        decreases n - k,
    {
        proof {
            assert(steps[k as int] == way@[k as int]);
            assert(charts[way@[k as int] as int] == maps@[way@[k as int] as int]@);
        }
        if !check_sound(&maps[way[k]].entries) {
            proof {
                assert(!sound(charts[steps[k as int]].entries));
            }
            return false;
        }
        k += 1;
    }
    proof {
        assert forall|i: int| 0 <= i < way@.len() implies sound(
            maps@[(#[trigger] way@[i]) as int]@.entries,
        ) by {
            assert(steps[i] == way@[i]);
            assert(charts[way@[i] as int] == maps@[way@[i] as int]@);
        }
    }
    true
}

impl Almanac {
    /// Reads an almanac: the seeds in the order of the text, and each map
    /// with its ranges in the order in which their sources begin. Nothing if
    /// the text cannot be read, or if two maps lead from the same. Ranges
    /// that are not sound are read like the others.
    pub fn from_input(input: &str) -> (r: Option<Almanac>)
        ensures
            match almanac(content(input.spec_bytes())) {
                Some((seeds, maps)) => {
                    &&& r.is_some()
                    &&& nats(r.unwrap().seeds@) == seeds
                    &&& charts_of(r.unwrap().maps@) == maps
                    &&& orderly(maps)
                    &&& forall|i: int|
                        0 <= i < maps.len() ==> ascending((#[trigger] maps[i]).entries)
                },
                None => r.is_none(),
            },
    {
        let text = content_of(input.as_bytes());
    let body = text.as_slice();
        let blocks = split_str_bytes(body, "\n\n".as_bytes());
        let ghost rows = rows_of(blocks@);
        let n = blocks.len();
        if n < 2 {
            return None;
        }
        proof {
            assert(rows[0] == blocks@[0]@);
        }
        let numbers = match strip_prefix(blocks[0].as_slice(), "seeds: ".as_bytes()) {
            Some(numbers) => numbers,
            None => {
                return None;
            },
        };
        let seeds = match parse_numbers(numbers) {
            Some(seeds) => seeds,
            None => {
                return None;
            },
        };
        let mut maps: Vec<Mapping> = Vec::new();
        let mut k: usize = 1;
        proof {
            assert(charts_of(maps@) =~= Seq::<Chart>::empty());
        }
        while k < n
            invariant
                1 <= k <= n,
                n == blocks@.len(),
                rows == rows_of(blocks@),
                rows == split_str(content(input.spec_bytes()), "\n\n".spec_bytes()),
                charts(rows, k as int) == Some(charts_of(maps@)),
                orderly(charts_of(maps@)),
                forall|i: int|
                    0 <= i < maps@.len() ==> ascending((#[trigger] charts_of(maps@)[i]).entries),
            decreases n - k,
        {
            let ghost before = charts_of(maps@);
            proof {
                assert(rows[k as int] == blocks@[k as int]@);
            }
            let map = match Mapping::from_block(blocks[k].as_slice()) {
                Some(map) => map,
                None => {
                    proof {
                        lemma_charts_stuck(rows, k + 1, n as int);
                    }
                    return None;
                },
            };
            let mut i: usize = 0;
            while i < maps.len()
                invariant
                    i <= maps@.len(),
                    1 <= k < n,
                    n == blocks@.len(),
                    rows == rows_of(blocks@),
                    rows == split_str(content(input.spec_bytes()), "\n\n".spec_bytes()),
                    charts(rows, k as int) == Some(before),
                    chart(rows[k as int]) == Some(map@),
                    ascending(map@.entries),
                    before == charts_of(maps@),
                    forall|a: int| 0 <= a < i ==> (#[trigger] before[a]).from != map@.from,
                decreases maps@.len() - i,
            {
                proof {
                    assert(before[i as int] == maps@[i as int]@);
                }
                if same_bytes(maps[i].from.as_slice(), map.from.as_slice()) {
                    proof {
                        assert(before[i as int].from == map@.from);
                        lemma_charts_stuck(rows, k + 1, n as int);
                    }
                    return None;
                }
                i += 1;
            }
            let ghost view = map@;
            maps.push(map);
            proof {
                assert(charts_of(maps@) =~= before.push(view));
                let after = charts_of(maps@);
                assert forall|a: int, b: int| 0 <= a < b < after.len() implies (
                #[trigger] after[a]).from != (#[trigger] after[b]).from by {
                    if b < before.len() {
                        assert(after[a] == before[a] && after[b] == before[b]);
                    } else {
                        assert(after[a] == before[a]);
                    }
                }
                assert forall|a: int| 0 <= a < after.len() implies ascending(
                    (#[trigger] after[a]).entries,
                ) by {
                    if a < before.len() {
                        assert(after[a] == before[a]);
                    }
                }
            }
            k += 1;
        }
        Some(Almanac { seeds, maps })
    }

    /// The place of the map that leads from `name`.
    fn find(&self, name: &[u8]) -> (r: Option<usize>)
        requires
            orderly(charts_of(self.maps@)),
        ensures
            match r {
                Some(i) => leads_from(charts_of(self.maps@), name@, i as int) && (choose|c: int|
                    leads_from(charts_of(self.maps@), name@, c)) == i,
                None => forall|c: int| !leads_from(charts_of(self.maps@), name@, c),
            },
    {
        let ghost charts = charts_of(self.maps@);
        let n = self.maps.len();
        let mut i: usize = 0;
        while i < n
            invariant
                i <= n,
                n == self.maps@.len(),
                charts == charts_of(self.maps@),
                orderly(charts),
                forall|a: int| 0 <= a < i ==> (#[trigger] charts[a]).from != name@,
            decreases n - i,
        {
            proof {
                assert(charts[i as int] == self.maps@[i as int]@);
            }
            if same_bytes(self.maps[i].from.as_slice(), name) {
                proof {
                    assert(leads_from(charts, name@, i as int));
                    let c = choose|c: int| leads_from(charts, name@, c);
                    if c < i {
                        assert(charts[c].from != name@);
                    } else if i < c {
                        assert(charts[i as int].from != charts[c].from);
                    }
                }
                return Some(i);
            }
            i += 1;
        }
        proof {
            assert forall|c: int| !leads_from(charts, name@, c) by {
                if 0 <= c < n {
                    assert(charts[c].from != name@);
                }
            }
        }
        None
    }

    /// The maps to pass, in order, from seeds to locations.
    pub fn route(&self) -> (r: Option<Vec<usize>>)
        requires
            orderly(charts_of(self.maps@)),
        ensures
            match route(charts_of(self.maps@), "seed".spec_bytes(), self.maps@.len()) {
                Some(way) => {
                    &&& r.is_some()
                    &&& ints(r.unwrap()@) == way
                    &&& forall|i: int|
                        0 <= i < r.unwrap()@.len() ==>
                            (#[trigger] r.unwrap()@[i]) < self.maps@.len()
                            && self.maps@[r.unwrap()@[i] as int]@.entries.len() >= 1
                },
                None => r.is_none(),
            },
    {
        let ghost charts = charts_of(self.maps@);
        let ghost goal = route(charts, "seed".spec_bytes(), self.maps@.len());
        let mut way: Vec<usize> = Vec::new();
        let mut fuel = self.maps.len();
        let mut at = match self.find("seed".as_bytes()) {
            Some(at) => at,
            None => {
                return None;
            },
        };
        proof {
            assert(ints(way@) =~= Seq::<int>::empty());
            assert(Seq::<int>::empty() + seq![at as int] =~= seq![at as int]);
        }
        loop
            invariant
                charts == charts_of(self.maps@),
                orderly(charts),
                at < self.maps@.len(),
                fuel <= self.maps@.len(),
                forall|i: int|
                    0 <= i < way@.len() ==> (#[trigger] way@[i]) < self.maps@.len()
                        && self.maps@[way@[i] as int]@.entries.len() >= 1,
                leads_from(charts, charts[at as int].from, at as int),
                (choose|c: int| leads_from(charts, charts[at as int].from, c)) == at,
                goal == joined(ints(way@), route(charts, charts[at as int].from, fuel as nat)),
                goal == route(charts, "seed".spec_bytes(), self.maps@.len()),
            decreases fuel,
        {
            let map = &self.maps[at];
            proof {
                assert(charts[at as int] == self.maps@[at as int]@);
            }
            if fuel == 0 {
                return None;
            }
            if map.entries.len() == 0 {
                proof {
                    assert(charts[at as int].entries.len() == 0);
                }
                return None;
            }
            let ghost before = ints(way@);
            way.push(at);
            proof {
                assert(ints(way@) =~= before.push(at as int));
                assert(before + seq![at as int] =~= before.push(at as int));
            }
            if same_bytes(map.to.as_slice(), "location".as_bytes()) {
                return Some(way);
            }
            let next = match self.find(map.to.as_slice()) {
                Some(next) => next,
                None => {
                    proof {
                        assert(route(charts, charts[at as int].to, (fuel - 1) as nat).is_none());
                    }
                    return None;
                },
            };
            proof {
                let rest = route(charts, charts[at as int].to, (fuel - 1) as nat);
                assert(charts[next as int].from == charts[at as int].to);
                if rest.is_some() {
                    assert(before + (seq![at as int] + rest.unwrap()) =~= before.push(at as int)
                        + rest.unwrap());
                }
            }
            fuel -= 1;
            at = next;
        }
    }
}

/// A first part of a way with the rest of it, if there is one.
pub open spec fn joined(first: Seq<int>, rest: Option<Seq<int>>) -> Option<Seq<int>> {
    match rest {
        Some(r) => Some(first + r),
        None => None,
    }
}

/// The location of a seed.
fn locate_one(maps: &Vec<Mapping>, way: &Vec<usize>, seed: usize) -> (r: usize)
    requires
        forall|i: int|
            0 <= i < way@.len() ==> (#[trigger] way@[i]) < maps@.len() && sound(
                maps@[way@[i] as int]@.entries,
            ) && maps@[way@[i] as int]@.entries.len() >= 1,
    ensures
        r == location(charts_of(maps@), ints(way@), seed as nat),
{
    let ghost charts = charts_of(maps@);
    let ghost steps = ints(way@);
    let n = way.len();
    let mut cur = seed;
    let mut k: usize = 0;
    while k < n
        invariant
            k <= n,
            n == way@.len(),
            charts == charts_of(maps@),
            steps == ints(way@),
            forall|i: int|
                0 <= i < way@.len() ==> (#[trigger] way@[i]) < maps@.len() && sound(
                    maps@[way@[i] as int]@.entries,
                ) && maps@[way@[i] as int]@.entries.len() >= 1,
            cur == travels(charts, steps, seed as nat, k as int),
        decreases n - k,
    {
        proof {
            assert(steps[k as int] == way@[k as int]);
            assert(charts[way@[k as int] as int] == maps@[way@[k as int] as int]@);
        }
        cur = maps[way[k]].map_entry(cur).0;
        k += 1;
    }
    cur
}

/// The lowest location of the seeds of a stretch in which the locations
/// follow one another is that of its first seed.
proof fn lemma_lowest_step(maps: Seq<Chart>, way: Seq<int>, start: nat, done: nat, count: nat,
    loc: nat)
    requires
        count >= 1,
        forall|t: nat| t < count ==> #[trigger] location(maps, way, start + done + t) == loc + t,
    ensures
        lowest_from(maps, way, start, done + count) == lesser(
            lowest_from(maps, way, start, done),
            loc,
        ),
    decreases count,
{
    let last = (count - 1) as nat;
    assert(location(maps, way, start + done + last) == loc + last);
    if count == 1 {
        assert(location(maps, way, start + done + 0) == loc + 0);
    } else {
        assert forall|t: nat| t < last implies #[trigger] location(maps, way, start + done + t)
            == loc + t by {}
        lemma_lowest_step(maps, way, start, done, last, loc);
    }
}

/// The lowest location of a seed of the almanac.
pub fn part1(data: &str) -> (r: Option<usize>)
    ensures
        match nearest(content(data.spec_bytes())) {
            Some(v) => r == Some(v as usize),
            None => r.is_none(),
        },
{
    let almanac = match Almanac::from_input(data) {
        Some(almanac) => almanac,
        None => {
            return None;
        },
    };
    let way = match almanac.route() {
        Some(way) => way,
        None => {
            return None;
        },
    };
    let n = almanac.seeds.len();
    if n == 0 || !check_way(&almanac.maps, &way) {
        return None;
    }
    let ghost charts = charts_of(almanac.maps@);
    let ghost steps = ints(way@);
    let ghost seeds = nats(almanac.seeds@);
    proof {
        assert(seeds[0] == almanac.seeds@[0]);
    }
    let mut best = locate_one(&almanac.maps, &way, almanac.seeds[0]);
    let mut k: usize = 1;
    while k < n
        invariant
            1 <= k <= n,
            n == almanac.seeds@.len(),
            charts == charts_of(almanac.maps@),
            steps == ints(way@),
            seeds == nats(almanac.seeds@),
            forall|i: int|
                0 <= i < way@.len() ==> (#[trigger] way@[i]) < almanac.maps@.len() && sound(
                    almanac.maps@[way@[i] as int]@.entries,
                ) && almanac.maps@[way@[i] as int]@.entries.len() >= 1,
            best == lowest(charts, steps, seeds, k as int),
        decreases n - k,
    {
        proof {
            assert(seeds[k as int] == almanac.seeds@[k as int]);
        }
        let here = locate_one(&almanac.maps, &way, almanac.seeds[k]);
        if here < best {
            best = here;
        }
        k += 1;
    }
    Some(best)
}

/// The lowest location of a seed of the almanac, where the seeds are read
/// as pairs of a first seed and a number of seeds.
pub fn part2(data: &str) -> (r: Option<usize>)
    ensures
        match nearest_of_ranges(content(data.spec_bytes())) {
            Some(v) => r == Some(v as usize),
            None => r.is_none(),
        },
{
    let almanac = match Almanac::from_input(data) {
        Some(almanac) => almanac,
        None => {
            return None;
        },
    };
    let way = match almanac.route() {
        Some(way) => way,
        None => {
            return None;
        },
    };
    let n = almanac.seeds.len();
    if n == 0 || n % 2 != 0 || !check_way(&almanac.maps, &way) {
        return None;
    }
    let ghost charts = charts_of(almanac.maps@);
    let ghost steps = ints(way@);
    let ghost seeds = nats(almanac.seeds@);
    let pairs = n / 2;
    let mut k: usize = 0;
    while k < pairs
        invariant
            k <= pairs,
            pairs == n / 2,
            n % 2 == 0,
            n == almanac.seeds@.len(),
            seeds == nats(almanac.seeds@),
            self::almanac(content(data.spec_bytes())) == Some((seeds, charts)),
            route(charts, "seed".spec_bytes(), charts.len()).is_some(),
            forall|a: int| 0 <= a < k ==> #[trigger] seeds[2 * a] + seeds[2 * a + 1] <= usize::MAX,
        decreases pairs - k,
    {
        proof {
            assert(seeds[2 * k] == almanac.seeds@[2 * k]);
            assert(seeds[2 * k + 1] == almanac.seeds@[2 * k + 1]);
        }
        if almanac.seeds[2 * k + 1] > usize::MAX - almanac.seeds[2 * k] {
            proof {
                assert(!(seeds[2 * (k as int)] + seeds[2 * (k as int) + 1] <= usize::MAX));
            }
            return None;
        }
        k += 1;
    }
    let mut best: usize = usize::MAX;
    let mut k: usize = 0;
    while k < pairs
        invariant
            k <= pairs,
            pairs == n / 2,
            n % 2 == 0,
            n == almanac.seeds@.len(),
            charts == charts_of(almanac.maps@),
            steps == ints(way@),
            seeds == nats(almanac.seeds@),
            forall|a: int| 0 <= a < pairs ==>
                #[trigger] seeds[2 * a] + seeds[2 * a + 1] <= usize::MAX,
            forall|i: int|
                0 <= i < way@.len() ==> (#[trigger] way@[i]) < almanac.maps@.len() && sound(
                    almanac.maps@[way@[i] as int]@.entries,
                ) && almanac.maps@[way@[i] as int]@.entries.len() >= 1,
            best == lowest_ranges(charts, steps, seeds, k as int),
        decreases pairs - k,
    {
        let start = almanac.seeds[2 * k];
        let len = almanac.seeds[2 * k + 1];
        proof {
            assert(seeds[2 * k] == start);
            assert(seeds[2 * k + 1] == len);
            assert(seeds[2 * (k as int)] + seeds[2 * (k as int) + 1] <= usize::MAX);
        }
        let mut cur_seed = start;
        let mut remain = len;
        let mut cur_result: usize = usize::MAX;
        while remain > 0
            invariant
                charts == charts_of(almanac.maps@),
                steps == ints(way@),
                start + len <= usize::MAX,
                remain <= len,
                cur_seed == start + (len - remain),
                forall|i: int|
                    0 <= i < way@.len() ==> (#[trigger] way@[i]) < almanac.maps@.len() && sound(
                        almanac.maps@[way@[i] as int]@.entries,
                    ) && almanac.maps@[way@[i] as int]@.entries.len() >= 1,
                cur_result == lowest_from(charts, steps, start as nat, (len - remain) as nat),
            decreases remain,
        {
            let (loc, room) = locate(&almanac.maps, &way, cur_seed);
            let count = if room < remain {
                room
            } else {
                remain
            };
            proof {
                let done = (len - remain) as nat;
                assert forall|t: nat| t < count implies #[trigger] location(
                    charts,
                    steps,
                    start as nat + done + t,
                ) == loc + t by {
                    assert(location(charts, steps, cur_seed as nat + t) == loc + t);
                }
                lemma_lowest_step(charts, steps, start as nat, done, count as nat, loc as nat);
            }
            if loc < cur_result {
                cur_result = loc;
            }
            cur_seed += count;
            remain -= count;
        }
        if cur_result < best {
            best = cur_result;
        }
        k += 1;
    }
    Some(best)
}

} // verus!
