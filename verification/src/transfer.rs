//! The transfer protocol: entries cross to the caller, and come back, in a
//! pair of buffers of fixed capacity. One buffer holds a record for each
//! entry, the other (the arena) holds the text of all paths back to back;
//! a record says where in the arena its path starts and how many characters
//! it has. What does not fit is left out, from the first entry that does not
//! fit onward.

use vstd::prelude::*;
use crate::entry::{entries_of, is_mode_tag, mode_tag, tag_mode, Entry, FileHit, FileMode};
use crate::filter::{filter, matches_of, scored_of, Scored, ScoredHit};
use crate::options::MatchOptions;
use crate::text::{chars_of, piece, string_of};

verus! {

/// One record of the record buffer.
#[derive(Clone, Copy, Debug, PartialEq, Eq)]
pub struct Data {
    /// Where the path starts in the arena; `None` in a record that refers to
    /// no text.
    pub path: Option<usize>,
    /// How many characters the path has.
    pub len: usize,
    /// The score, 0 where none was computed.
    pub score: usize,
    /// The tag of the entry's kind.
    pub file_type: usize,
}

/// What one record carries.
pub struct Item {
    pub text: Seq<char>,
    pub score: nat,
    pub tag: nat,
}

/// Something that a record can carry.
pub trait Carried {
    /// What the record of this value carries.
    spec fn item(&self) -> Item;

    /// The characters of the path.
    fn text(&self) -> (text: Vec<char>)
        ensures
            text@ == self.item().text,
    ;

    /// The score.
    fn score(&self) -> (score: usize)
        ensures
            score == self.item().score,
    ;

    /// The tag of the kind.
    fn tag(&self) -> (tag: usize)
        ensures
            tag == self.item().tag,
    ;
}

/// An entry is carried with the score 0.
impl Carried for FileHit {
    open spec fn item(&self) -> Item {
        Item { text: self.path@, score: 0, tag: mode_tag(self.mode) }
    }

    fn text(&self) -> (text: Vec<char>) {
        chars_of(self.path.as_str())
    }

    fn score(&self) -> (score: usize) {
        0
    }

    fn tag(&self) -> (tag: usize) {
        self.mode.as_usize()
    }
}

/// A kept entry is carried with its score.
impl Carried for ScoredHit {
    open spec fn item(&self) -> Item {
        Item { text: self.hit.path@, score: self.score as nat, tag: mode_tag(self.hit.mode) }
    }

    fn text(&self) -> (text: Vec<char>) {
        chars_of(self.hit.path.as_str())
    }

    fn score(&self) -> (score: usize) {
        self.score
    }

    fn tag(&self) -> (tag: usize) {
        self.hit.mode.as_usize()
    }
}

/// What the records of `things` carry, in order.
pub open spec fn items_of<T: Carried>(things: Seq<T>) -> Seq<Item> {
    things.map_values(|thing: T| thing.item())
}

/// What the record of a kept entry carries.
pub open spec fn item_of_scored(scored: Scored) -> Item {
    Item { text: scored.entry.path, score: scored.score, tag: mode_tag(scored.entry.mode) }
}

/// What the records of a ranking carry, in order.
pub open spec fn items_of_ranking(ranking: Seq<Scored>) -> Seq<Item> {
    ranking.map_values(|scored: Scored| item_of_scored(scored))
}

/// The number of characters in the texts of `items`.
pub open spec fn total_len(items: Seq<Item>) -> nat
    decreases items.len(),
{
    if items.len() == 0 {
        0
    } else {
        total_len(items.drop_last()) + items.last().text.len()
    }
}

/// The first `count` of `items` fit: there is a record for each, and the
/// arena holds all their text.
pub open spec fn fits(items: Seq<Item>, count: int, records: nat, units: nat) -> bool {
    &&& 0 <= count <= items.len()
    &&& count <= records
    &&& total_len(items.take(count)) <= units
}

/// `record` is the record of the item at `at`: it starts where the text of
/// the items before it ends.
pub open spec fn is_record_of(record: Data, items: Seq<Item>, at: int) -> bool {
    &&& record.path == Some(total_len(items.take(at)) as usize)
    &&& total_len(items.take(at)) <= usize::MAX
    &&& record.len == items[at].text.len()
    &&& record.score == items[at].score
    &&& record.file_type == items[at].tag
}

/// The buffers after `items` were written into buffers of the declared
/// capacities `dat_len` and `strs_len`. `count` is the number of leading
/// items that fit, and no more. The first `count` records are theirs, and
/// the arena holds their texts back to back from its start. Nothing else
/// has changed: not the length of either buffer, no record from `count` on,
/// no character behind the texts written; so nothing at or beyond a declared
/// capacity.
pub open spec fn written(
    dat_before: Seq<Data>,
    dat: Seq<Data>,
    dat_len: nat,
    strs_before: Seq<char>,
    strs: Seq<char>,
    strs_len: nat,
    items: Seq<Item>,
    count: nat,
) -> bool {
    let records = if dat_len <= dat_before.len() {
        dat_len
    } else {
        dat_before.len()
    };
    let units = if strs_len <= strs_before.len() {
        strs_len
    } else {
        strs_before.len()
    };
    let used = total_len(items.take(count as int));
    &&& fits(items, count as int, records, units)
    &&& count < items.len() ==> !fits(items, (count + 1) as int, records, units)
    &&& dat.len() == dat_before.len()
    &&& strs.len() == strs_before.len()
    &&& forall|i: int| 0 <= i < count ==> is_record_of(#[trigger] dat[i], items, i)
    &&& forall|i: int|
        0 <= i < count ==> #[trigger] strs.subrange(
            total_len(items.take(i)) as int,
            total_len(items.take(i + 1)) as int,
        ) == items[i].text
    &&& forall|i: int| count <= i < dat.len() ==> #[trigger] dat[i] == dat_before[i]
    &&& forall|j: int| used <= j < strs.len() ==> #[trigger] strs[j] == strs_before[j]
}

/// A write leaves alone whatever lies at or beyond a declared capacity, in
/// both buffers, however many items there are and however long their texts.
pub proof fn lemma_nothing_beyond_capacity(
    dat_before: Seq<Data>,
    dat: Seq<Data>,
    dat_len: nat,
    strs_before: Seq<char>,
    strs: Seq<char>,
    strs_len: nat,
    items: Seq<Item>,
    count: nat,
)
    requires
        written(dat_before, dat, dat_len, strs_before, strs, strs_len, items, count),
    ensures
        count <= dat_len,
        total_len(items.take(count as int)) <= strs_len,
        dat.len() == dat_before.len(),
        strs.len() == strs_before.len(),
        forall|i: int| dat_len <= i < dat.len() ==> dat[i] == dat_before[i],
        forall|j: int| strs_len <= j < strs.len() ==> strs[j] == strs_before[j],
{
}

/// The length of the texts grows item by item.
pub proof fn lemma_total_len_step(items: Seq<Item>, at: int)
    requires
        0 <= at < items.len(),
    ensures
        total_len(items.take(at + 1)) == total_len(items.take(at)) + items[at].text.len(),
{
    assert(items.take(at + 1).drop_last() =~= items.take(at));
}

/// The length of the texts of fewer items is no greater.
pub proof fn lemma_total_len_grows(items: Seq<Item>, fewer: int, more: int)
    requires
        0 <= fewer <= more <= items.len(),
    ensures
        total_len(items.take(fewer)) <= total_len(items.take(more)),
    decreases more - fewer,
{
    if fewer < more {
        lemma_total_len_grows(items, fewer, more - 1);
        lemma_total_len_step(items, more - 1);
    }
}

/// Writes `things` into the buffers, as far as they fit, and returns the
/// number of records written.
pub fn write_all<T: Carried>(
    dat: &mut Vec<Data>,
    dat_len: usize,
    strs: &mut Vec<char>,
    strs_len: usize,
    things: &Vec<T>,
) -> (count: usize)
    ensures
        written(
            old(dat)@,
            final(dat)@,
            dat_len as nat,
            old(strs)@,
            final(strs)@,
            strs_len as nat,
            items_of(things@),
            count as nat,
        ),
        count <= dat_len,
        total_len(items_of(things@).take(count as int)) <= strs_len,
{
    let ghost items = items_of(things@);
    let ghost dat_before = dat@;
    let ghost strs_before = strs@;
    let records: usize = if dat_len <= dat.len() {
        dat_len
    } else {
        dat.len()
    };
    let units: usize = if strs_len <= strs.len() {
        strs_len
    } else {
        strs.len()
    };
    let mut count: usize = 0;
    let mut used: usize = 0;
    let mut open = true;
    assert(items.take(0) =~= Seq::<Item>::empty());
    while open && count < things.len()
        invariant
            items == items_of(things@),
            records <= dat_before.len(),
            units <= strs_before.len(),
            dat@.len() == dat_before.len(),
            strs@.len() == strs_before.len(),
            used == total_len(items.take(count as int)),
            fits(items, count as int, records as nat, units as nat),
            !open ==> count < items.len() && !fits(
                items,
                count + 1,
                records as nat,
                units as nat,
            ),
            forall|i: int| 0 <= i < count ==> is_record_of(#[trigger] dat@[i], items, i),
            forall|i: int|
                0 <= i < count ==> #[trigger] strs@.subrange(
                    total_len(items.take(i)) as int,
                    total_len(items.take(i + 1)) as int,
                ) == items[i].text,
            forall|i: int| count <= i < dat@.len() ==> #[trigger] dat@[i] == dat_before[i],
            forall|j: int| used <= j < strs@.len() ==> #[trigger] strs@[j] == strs_before[j],
        decreases things.len() - count + if open { 1int } else { 0int },
    {
        proof {
            lemma_total_len_step(items, count as int);
        }
        if count >= records {
            open = false;
        } else {
            let text = things[count].text();
            if text.len() > units - used {
                open = false;
            } else {
                let ghost strs_start = strs@;
                let mut k: usize = 0;
                while k < text.len()
                    invariant
                        k <= text.len(),
                        used + text.len() <= units,
                        units <= strs@.len(),
                        strs@.len() == strs_start.len(),
                        strs@.subrange(used as int, used + k) == text@.take(k as int),
                        forall|j: int| 0 <= j < used ==> #[trigger] strs@[j] == strs_start[j],
                        forall|j: int|
                            used + k <= j < strs@.len() ==> #[trigger] strs@[j] == strs_start[j],
                    decreases text.len() - k,
                {
                    let ghost so_far = strs@;
                    strs[used + k] = text[k];
                    assert(strs@.subrange(used as int, used + k + 1) =~= so_far.subrange(
                        used as int,
                        used + k,
                    ).push(text@[k as int]));
                    assert(text@.take(k + 1) =~= text@.take(k as int).push(text@[k as int]));
                    k += 1;
                }
                proof {
                    assert(text@.take(text.len() as int) =~= text@);
                    assert forall|i: int| 0 <= i < count implies #[trigger] strs@.subrange(
                        total_len(items.take(i)) as int,
                        total_len(items.take(i + 1)) as int,
                    ) == items[i].text by {
                        lemma_total_len_grows(items, i + 1, count as int);
                        lemma_total_len_grows(items, i, i + 1);
                        assert(strs@.subrange(
                            total_len(items.take(i)) as int,
                            total_len(items.take(i + 1)) as int,
                        ) =~= strs_start.subrange(
                            total_len(items.take(i)) as int,
                            total_len(items.take(i + 1)) as int,
                        ));
                    }
                }
                let record = Data {
                    path: Some(used),
                    len: text.len(),
                    score: things[count].score(),
                    file_type: things[count].tag(),
                };
                dat[count] = record;
                used += text.len();
                count += 1;
            }
        }
    }
    count
}

/// Writes the entries `files` into the buffers, each with the score 0, as
/// far as they fit, and returns the number of records written.
pub fn walk_ffi(
    dat: &mut Vec<Data>,
    dat_len: usize,
    strs: &mut Vec<char>,
    strs_len: usize,
    files: &Vec<FileHit>,
) -> (count: usize)
    ensures
        written(
            old(dat)@,
            final(dat)@,
            dat_len as nat,
            old(strs)@,
            final(strs)@,
            strs_len as nat,
            items_of(files@),
            count as nat,
        ),
        count <= dat_len,
        count <= files@.len(),
        total_len(items_of(files@).take(count as int)) <= strs_len,
{
    write_all(dat, dat_len, strs, strs_len, files)
}

/// A record whose text can be read: it refers to text, and the arena holds
/// all of it.
pub open spec fn readable(record: Data, units: nat) -> bool {
    record.path matches Some(at) && at + record.len <= units
}

/// The entry that a readable record stands for.
pub open spec fn entry_of_record(record: Data, strs: Seq<char>) -> Entry {
    Entry {
        path: strs.subrange(record.path->0 as int, record.path->0 + record.len),
        mode: tag_mode(record.file_type as nat),
    }
}

/// The entries that the records `dat` stand for, in order. A record that
/// cannot be read stands for none.
pub open spec fn entries_read(dat: Seq<Data>, strs: Seq<char>) -> Seq<Entry>
    decreases dat.len(),
{
    if dat.len() == 0 {
        Seq::empty()
    } else {
        let front = entries_read(dat.drop_last(), strs);
        if readable(dat.last(), strs.len()) {
            front.push(entry_of_record(dat.last(), strs))
        } else {
            front
        }
    }
}

/// Every record of `dat` that can be read carries the tag of a kind.
pub open spec fn tags_valid(dat: Seq<Data>, units: nat) -> bool {
    forall|i: int|
        0 <= i < dat.len() && readable(#[trigger] dat[i], units) ==> is_mode_tag(
            dat[i].file_type as nat,
        )
}

/// The records that a reader is given: the first `item_count` of the
/// buffer, or all of it where it holds fewer.
pub open spec fn records_given(dat: Seq<Data>, item_count: nat) -> Seq<Data> {
    if item_count <= dat.len() {
        dat.take(item_count as int)
    } else {
        dat
    }
}

/// Whether `record` can be read from an arena of `units` characters.
pub fn can_read(record: &Data, units: usize) -> (can: bool)
    ensures
        can == readable(*record, units as nat),
{
    match record.path {
        Some(at) => at <= units && record.len <= units - at,
        None => false,
    }
}

/// Whether every record given that can be read carries the tag of a kind.
pub fn records_valid(dat: &[Data], strs: &[char], item_count: usize) -> (valid: bool)
    ensures
        valid == tags_valid(records_given(dat@, item_count as nat), strs@.len()),
{
    let given: usize = if item_count <= dat.len() {
        item_count
    } else {
        dat.len()
    };
    let ghost records = records_given(dat@, item_count as nat);
    assert(records =~= dat@.take(given as int));
    let mut i: usize = 0;
    while i < given
        invariant
            i <= given <= dat.len(),
            records == dat@.take(given as int),
            records == records_given(dat@, item_count as nat),
            forall|j: int|
                0 <= j < i && readable(#[trigger] records[j], strs@.len()) ==> is_mode_tag(
                    records[j].file_type as nat,
                ),
        decreases given - i,
    {
        assert(records[i as int] == dat@[i as int]);
        if can_read(&dat[i], strs.len()) && !FileMode::is_tag(dat[i].file_type) {
            assert(records[i as int] == dat@[i as int]);
            assert(readable(records[i as int], strs@.len()) && !is_mode_tag(
                records[i as int].file_type as nat,
            ));
            return false;
        }
        i += 1;
    }
    true
}

/// Reads the entries that the first `item_count` records stand for. A record
/// that refers to no text, or to text that the arena does not hold, is
/// passed over.
pub fn read_all(dat: &[Data], strs: &[char], item_count: usize) -> (files: Vec<FileHit>)
    requires
        tags_valid(records_given(dat@, item_count as nat), strs@.len()),
    ensures
        entries_of(files@) == entries_read(
            records_given(dat@, item_count as nat),
            strs@,
        ),
{
    let given: usize = if item_count <= dat.len() {
        item_count
    } else {
        dat.len()
    };
    let ghost records = records_given(dat@, item_count as nat);
    assert(records =~= dat@.take(given as int));
    assert(records.take(0) =~= Seq::<Data>::empty());
    let mut files: Vec<FileHit> = Vec::new();
    let mut i: usize = 0;
    while i < given
        invariant
            i <= given <= dat.len(),
            records == dat@.take(given as int),
            tags_valid(records, strs@.len()),
            entries_of(files@) == entries_read(records.take(i as int), strs@),
        decreases given - i,
    {
        let record = &dat[i];
        let ghost before = entries_of(files@);
        proof {
            assert(records.take(i + 1).drop_last() =~= records.take(i as int));
            assert(records.take(i + 1).last() == *record);
            assert(records[i as int] == *record);
        }
        if can_read(record, strs.len()) {
            let at: usize = record.path.unwrap();
            let text = piece(strs, at, at + record.len);
            let hit = FileHit {
                path: string_of(text.as_slice()),
                mode: FileMode::from_usize(record.file_type),
            };
            files.push(hit);
            assert(entries_of(files@) =~= before.push(
                entry_of_record(*record, strs@),
            ));
        }
        i += 1;
    }
    assert(records.take(given as int) =~= records);
    files
}

/// `ranking` holds what `kept` holds, the highest score first.
pub open spec fn is_ranking(ranking: Seq<Scored>, kept: Seq<Scored>) -> bool {
    &&& ranking.to_multiset() == kept.to_multiset()
    &&& forall|i: int, j: int|
        #![trigger ranking[i], ranking[j]]
        0 <= i < j < ranking.len() ==> ranking[i].score >= ranking[j].score
}

/// Reads the entries of the first `item_count` records of `dat` from the
/// arena `strs`, keeps and ranks those that the query of `options` matches,
/// and writes them into the buffers `dat_filtered` and `str_filtered`, as
/// far as they fit. Returns the number of records written.
pub fn filter_ffi(
    dat: &[Data],
    strs: &[char],
    item_count: usize,
    options: &MatchOptions,
    dat_filtered: &mut Vec<Data>,
    dat_filtered_len: usize,
    str_filtered: &mut Vec<char>,
    str_filtered_len: usize,
) -> (count: usize)
    requires
        tags_valid(records_given(dat@, item_count as nat), strs@.len()),
    ensures
        exists|ranking: Seq<Scored>|
            #[trigger] is_ranking(
                ranking,
                matches_of(
                    entries_read(records_given(dat@, item_count as nat), strs@),
                    options@,
                ),
            ) && written(
                old(dat_filtered)@,
                final(dat_filtered)@,
                dat_filtered_len as nat,
                old(str_filtered)@,
                final(str_filtered)@,
                str_filtered_len as nat,
                items_of_ranking(ranking),
                count as nat,
            ),
        count <= dat_filtered_len,
{
    let files = read_all(dat, strs, item_count);
    let kept = filter(&files, options);
    let ghost dat_before = dat_filtered@;
    let ghost str_before = str_filtered@;
    let count = write_all(dat_filtered, dat_filtered_len, str_filtered, str_filtered_len, &kept);
    proof {
        let ranking = scored_of(kept@);
        assert(items_of(kept@) =~= items_of_ranking(ranking));
        assert(is_ranking(
            ranking,
            matches_of(entries_read(records_given(dat@, item_count as nat), strs@), options@),
        ));
        assert(written(
            dat_before,
            dat_filtered@,
            dat_filtered_len as nat,
            str_before,
            str_filtered@,
            str_filtered_len as nat,
            items_of_ranking(ranking),
            count as nat,
        ));
    }
    count
}

/// The entry that an item stands for.
pub open spec fn entry_of_item(item: Item) -> Entry {
    Entry { path: item.text, mode: tag_mode(item.tag) }
}

/// What was written can be read back: the first `upto` records written stand
/// for the first `upto` items.
pub proof fn lemma_read_back(
    dat_before: Seq<Data>,
    dat: Seq<Data>,
    dat_len: nat,
    strs_before: Seq<char>,
    strs: Seq<char>,
    strs_len: nat,
    items: Seq<Item>,
    count: nat,
    upto: nat,
)
    requires
        written(dat_before, dat, dat_len, strs_before, strs, strs_len, items, count),
        upto <= count,
    ensures
        entries_read(dat.take(upto as int), strs) == items.take(upto as int).map_values(
            |item: Item| entry_of_item(item),
        ),
    decreases upto,
{
    let wanted = items.take(upto as int).map_values(|item: Item| entry_of_item(item));
    if upto == 0 {
        assert(dat.take(0) =~= Seq::<Data>::empty());
        assert(wanted =~= Seq::<Entry>::empty());
    } else {
        let last = upto - 1;
        lemma_read_back(
            dat_before,
            dat,
            dat_len,
            strs_before,
            strs,
            strs_len,
            items,
            count,
            last as nat,
        );
        assert(dat.take(upto as int).drop_last() =~= dat.take(last));
        assert(dat.take(upto as int).last() == dat[last]);
        assert(is_record_of(dat[last], items, last));
        lemma_total_len_step(items, last);
        lemma_total_len_grows(items, upto as int, count as int);
        assert(strs.subrange(
            total_len(items.take(last)) as int,
            total_len(items.take(last + 1)) as int,
        ) == items[last].text);
        assert(wanted =~= items.take(last).map_values(|item: Item| entry_of_item(item)).push(
            entry_of_item(items[last]),
        ));
    }
}

/// Entries written by `walk_ffi` and read back are the entries written.
pub proof fn lemma_entries_read_back(
    dat_before: Seq<Data>,
    dat: Seq<Data>,
    dat_len: nat,
    strs_before: Seq<char>,
    strs: Seq<char>,
    strs_len: nat,
    files: Seq<FileHit>,
    count: nat,
)
    requires
        written(dat_before, dat, dat_len, strs_before, strs, strs_len, items_of(files), count),
    ensures
        entries_read(records_given(dat, count), strs) == entries_of(files).take(
            count as int,
        ),
        tags_valid(records_given(dat, count), strs.len()),
{
    let items = items_of(files);
    lemma_read_back(dat_before, dat, dat_len, strs_before, strs, strs_len, items, count, count);
    assert(items.take(count as int).map_values(|item: Item| entry_of_item(item))
        =~= entries_of(files).take(count as int));
}

} // verus!
