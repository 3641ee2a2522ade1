//! The buffers of all channels, in the order of the channel names.

use crate::buffer::{can_reserve, ChannelBuffer};
use crate::double::Double;
use crate::packet::WaveBlock;
use crate::text::characters;
use vstd::prelude::*;

verus! {

/// The buffer of a named channel.
#[derive(Debug)]
pub struct ChannelEntry {
    pub channel: String,
    pub buffer: ChannelBuffer,
}

/// The buffers of all channels that have sent a packet.
#[derive(Debug)]
pub struct ChannelTable {
    pub entries: Vec<ChannelEntry>,
}

/// Whether name `a` comes before name `b`: at the first difference the smaller character decides,
/// and a name comes before its own extensions.
pub open spec fn comes_before(a: Seq<char>, b: Seq<char>) -> bool
    decreases a.len(),
{
    if b.len() == 0 {
        false
    } else if a.len() == 0 {
        true
    } else if a[0] != b[0] {
        (a[0] as u32) < (b[0] as u32)
    } else {
        comes_before(a.drop_first(), b.drop_first())
    }
}

impl ChannelTable {
    /// Every name occurs once, the names ascend, and no buffer holds more than it may.
    pub open spec fn well_formed(self) -> bool {
        &&& forall|i: int, j: int|
            0 <= i < j < self.entries@.len() ==> comes_before(
                #[trigger] self.entries@[i].channel@,
                #[trigger] self.entries@[j].channel@,
            )
        &&& forall|i: int|
            0 <= i < self.entries@.len() ==> (#[trigger] self.entries@[i]).buffer.well_formed()
    }

    /// Whether the entry at `i` is that of `name`.
    pub open spec fn holds_at(self, i: int, name: Seq<char>) -> bool {
        0 <= i < self.entries@.len() && self.entries@[i].channel@ == name
    }
}

impl View for ChannelTable {
    type V = Map<Seq<char>, ChannelBuffer>;

    open spec fn view(&self) -> Map<Seq<char>, ChannelBuffer> {
        Map::new(
            |name: Seq<char>| exists|i: int| self.holds_at(i, name),
            |name: Seq<char>| self.entries@[choose|i: int| self.holds_at(i, name)].buffer,
        )
    }
}

/// No name comes before itself.
pub proof fn lemma_not_before_itself(a: Seq<char>)
    ensures
        !comes_before(a, a),
    decreases a.len(),
{
    if a.len() > 0 {
        lemma_not_before_itself(a.drop_first());
    }
}

/// Of two different names one comes before the other.
pub proof fn lemma_names_comparable(a: Seq<char>, b: Seq<char>)
    requires
        a != b,
    ensures
        comes_before(a, b) || comes_before(b, a),
    decreases a.len(),
{
    if a.len() > 0 && b.len() > 0 && a[0] == b[0] {
        if a.drop_first() == b.drop_first() {
            assert(a =~= seq![a[0]] + a.drop_first());
            assert(b =~= seq![b[0]] + b.drop_first());
        }
        lemma_names_comparable(a.drop_first(), b.drop_first());
    } else if a.len() == 0 && b.len() == 0 {
        assert(a =~= b);
    } else if a.len() > 0 && b.len() > 0 {
        vstd::utf8::char_u32_cast(a[0], a[0] as u32);
        vstd::utf8::char_u32_cast(b[0], b[0] as u32);
        assert(a[0] as u32 != b[0] as u32);
    }
}

/// The order of names is transitive.
pub proof fn lemma_before_transitive(a: Seq<char>, b: Seq<char>, c: Seq<char>)
    requires
        comes_before(a, b),
        comes_before(b, c),
    ensures
        comes_before(a, c),
    decreases a.len(),
{
    if a.len() > 0 && a[0] == b[0] && b[0] == c[0] {
        lemma_before_transitive(a.drop_first(), b.drop_first(), c.drop_first());
    }
}

/// Whether name `a` comes before name `b`.
pub fn is_before(a: &String, b: &String) -> (r: bool)
    ensures
        r == comes_before(a@, b@),
{
    let x: Vec<char> = characters(a.as_str());
    let y: Vec<char> = characters(b.as_str());
    let mut i: usize = 0;
    assert(x@.skip(0) =~= x@);
    assert(y@.skip(0) =~= y@);
    while i < x.len() && i < y.len()
        invariant
            i <= x@.len(),
            i <= y@.len(),
            x@ == a@,
            y@ == b@,
            comes_before(a@, b@) == comes_before(x@.skip(i as int), y@.skip(i as int)),
        decreases x@.len() - i,
    {
        if x[i] != y[i] {
            return (x[i] as u32) < (y[i] as u32);
        }
        assert(x@.skip(i as int).drop_first() =~= x@.skip(i + 1));
        assert(y@.skip(i as int).drop_first() =~= y@.skip(i + 1));
        i = i + 1;
    }
    i < y.len()
}

proof fn lemma_place_unique(table: ChannelTable, i: int, j: int, name: Seq<char>)
    requires
        table.well_formed(),
        table.holds_at(i, name),
        table.holds_at(j, name),
    ensures
        i == j,
{
    lemma_not_before_itself(name);
    if i < j {
        assert(comes_before(table.entries@[i].channel@, table.entries@[j].channel@));
    } else if j < i {
        assert(comes_before(table.entries@[j].channel@, table.entries@[i].channel@));
    }
}

/// The entry of a name is what the table holds under that name.
pub proof fn lemma_entry_is_held(table: ChannelTable, i: int)
    requires
        table.well_formed(),
        0 <= i < table.entries@.len(),
    ensures
        table@.contains_key(table.entries@[i].channel@),
        table@[table.entries@[i].channel@] == table.entries@[i].buffer,
{
    let name = table.entries@[i].channel@;
    assert(table.holds_at(i, name));
    let j = choose|j: int| table.holds_at(j, name);
    lemma_place_unique(table, i, j, name);
}

proof fn lemma_same_names(before: ChannelTable, after: ChannelTable, place: int)
    requires
        before.well_formed(),
        0 <= place < before.entries@.len(),
        after.entries@.len() == before.entries@.len(),
        forall|i: int|
            0 <= i < before.entries@.len() ==> (#[trigger] after.entries@[i]).channel
                == before.entries@[i].channel,
        forall|i: int|
            0 <= i < before.entries@.len() && i != place ==> (#[trigger] after.entries@[i])
                == before.entries@[i],
        after.entries@[place].buffer.well_formed(),
    ensures
        after.well_formed(),
        after@ == before@.insert(
            before.entries@[place].channel@,
            after.entries@[place].buffer,
        ),
        after@[before.entries@[place].channel@] == after.entries@[place].buffer,
{
    let name = before.entries@[place].channel@;
    let owed = before@.insert(name, after.entries@[place].buffer);
    assert forall|i: int, j: int| 0 <= i < j < after.entries@.len() implies comes_before(
        #[trigger] after.entries@[i].channel@,
        #[trigger] after.entries@[j].channel@,
    ) by {
        assert(comes_before(before.entries@[i].channel@, before.entries@[j].channel@));
    }
    lemma_entry_is_held(after, place);
    assert forall|n: Seq<char>| after@.contains_key(n) == owed.contains_key(n) by {
        assert forall|i: int| after.holds_at(i, n) implies before.holds_at(i, n) by {}
        assert forall|i: int| before.holds_at(i, n) implies after.holds_at(i, n) by {}
        if n == name {
            assert(after.holds_at(place, n));
        }
    }
    assert forall|n: Seq<char>| #[trigger] after@.contains_key(n) implies after@[n] == owed[n] by {
        let i = choose|i: int| after.holds_at(i, n);
        lemma_entry_is_held(after, i);
        lemma_entry_is_held(before, i);
        if n == name {
            lemma_place_unique(after, i, place, n);
        } else {
            assert(i != place);
        }
    }
    assert(after@ =~= owed);
}

proof fn lemma_inserted(before: ChannelTable, after: ChannelTable, place: int, name: Seq<char>)
    requires
        before.well_formed(),
        0 <= place <= before.entries@.len(),
        after.entries@.len() == before.entries@.len() + 1,
        after.entries@[place].channel@ == name,
        forall|i: int|
            0 <= i < place ==> (#[trigger] after.entries@[i]) == before.entries@[i]
                && comes_before(before.entries@[i].channel@, name),
        forall|i: int|
            place < i < after.entries@.len() ==> (#[trigger] after.entries@[i])
                == before.entries@[i - 1] && comes_before(name, before.entries@[i - 1].channel@),
        after.entries@[place].buffer.well_formed(),
    ensures
        after.well_formed(),
        after@ == before@.insert(name, after.entries@[place].buffer),
        after@[name] == after.entries@[place].buffer,
{
    let owed = before@.insert(name, after.entries@[place].buffer);
    assert forall|i: int, j: int| 0 <= i < j < after.entries@.len() implies comes_before(
        #[trigger] after.entries@[i].channel@,
        #[trigger] after.entries@[j].channel@,
    ) by {
        if i < place && j < place {
            assert(comes_before(before.entries@[i].channel@, before.entries@[j].channel@));
        } else if i < place && j > place {
            assert(comes_before(before.entries@[i].channel@, before.entries@[j - 1].channel@));
        } else if i > place {
            assert(comes_before(before.entries@[i - 1].channel@, before.entries@[j - 1].channel@));
        }
    }
    assert forall|i: int| 0 <= i < after.entries@.len() implies (
    #[trigger] after.entries@[i]).buffer.well_formed() by {
        if i < place {
            assert(before.entries@[i].buffer.well_formed());
        } else if i > place {
            assert(before.entries@[i - 1].buffer.well_formed());
        }
    }
    lemma_not_before_itself(name);
    lemma_entry_is_held(after, place);
    assert forall|n: Seq<char>| after@.contains_key(n) == owed.contains_key(n) by {
        if n == name {
            assert(after.holds_at(place, n));
        } else {
            assert forall|i: int| after.holds_at(i, n) implies before.holds_at(
                if i < place {
                    i
                } else {
                    i - 1
                },
                n,
            ) by {
                assert(i != place);
            }
            assert forall|i: int| before.holds_at(i, n) implies after.holds_at(
                if i < place {
                    i
                } else {
                    i + 1
                },
                n,
            ) by {
                if i >= place {
                    assert(after.entries@[i + 1] == before.entries@[i]);
                }
            }
            if after@.contains_key(n) {
                let i = choose|i: int| after.holds_at(i, n);
                assert(before.holds_at(
                    if i < place {
                        i
                    } else {
                        i - 1
                    },
                    n,
                ));
            }
            if before@.contains_key(n) {
                let i = choose|i: int| before.holds_at(i, n);
                assert(after.holds_at(
                    if i < place {
                        i
                    } else {
                        i + 1
                    },
                    n,
                ));
            }
        }
    }
    assert forall|n: Seq<char>| #[trigger] after@.contains_key(n) implies after@[n] == owed[n] by {
        let i = choose|i: int| after.holds_at(i, n);
        lemma_entry_is_held(after, i);
        if n == name {
            lemma_place_unique(after, i, place, n);
        } else if i < place {
            lemma_entry_is_held(before, i);
        } else {
            assert(i != place);
            lemma_entry_is_held(before, i - 1);
        }
    }
    assert(after@ =~= owed);
}

/// Whether the table can take in a block: the time of its channel can be told, or room for a new
/// channel can be set aside.
pub open spec fn can_take(
    table: Map<Seq<char>, ChannelBuffer>,
    channel: Seq<char>,
    sample_rate_hz: Double,
) -> bool {
    if table.contains_key(channel) {
        table[channel].can_append()
    } else {
        can_reserve(sample_rate_hz)
    }
}

/// Whether `buffer` is what a table holds for the channel of a block after it took the block in.
pub open spec fn is_taken(
    table: Map<Seq<char>, ChannelBuffer>,
    block: WaveBlock,
    buffer: ChannelBuffer,
) -> bool {
    if table.contains_key(block.channel@) {
        buffer.is_appended(table[block.channel@], block.start_ms, block.samples@)
    } else {
        exists|empty: ChannelBuffer| #[trigger]
            empty.is_new(block.sample_rate_hz) && buffer.is_appended(
                empty,
                block.start_ms,
                block.samples@,
            )
    }
}

impl ChannelTable {
    /// A table without channels.
    pub fn new() -> (r: ChannelTable)
        ensures
            r.well_formed(),
            r@ == Map::<Seq<char>, ChannelBuffer>::empty(),
    {
        let r: ChannelTable = ChannelTable { entries: Vec::new() };
        assert(r@ =~= Map::empty());
        r
    }

    fn find(&self, name: &String) -> (r: (bool, usize))
        requires
            self.well_formed(),
        ensures
            r.1 <= self.entries@.len(),
            forall|i: int|
                0 <= i < r.1 ==> comes_before(#[trigger] self.entries@[i].channel@, name@),
            r.0 ==> self.holds_at(r.1 as int, name@),
            !r.0 ==> forall|i: int|
                r.1 <= i < self.entries@.len() ==> comes_before(
                    name@,
                    #[trigger] self.entries@[i].channel@,
                ),
    {
        let mut i: usize = 0;
        while i < self.entries.len() && is_before(&self.entries[i].channel, name)
            invariant
                i <= self.entries@.len(),
                forall|j: int|
                    0 <= j < i ==> comes_before(#[trigger] self.entries@[j].channel@, name@),
            decreases self.entries@.len() - i,
        {
            i = i + 1;
        }
        if i < self.entries.len() && self.entries[i].channel == *name {
            return (true, i);
        }
        proof {
            if i < self.entries@.len() {
                lemma_names_comparable(self.entries@[i as int].channel@, name@);
                assert forall|j: int| i <= j < self.entries@.len() implies comes_before(
                    name@,
                    #[trigger] self.entries@[j].channel@,
                ) by {
                    if i < j {
                        lemma_before_transitive(
                            name@,
                            self.entries@[i as int].channel@,
                            self.entries@[j].channel@,
                        );
                    }
                }
            }
        }
        (false, i)
    }

    /// Whether the table can take in a block.
    pub fn has_room_for(&self, block: &WaveBlock) -> (r: bool)
        requires
            self.well_formed(),
        ensures
            r == can_take(self@, block.channel@, block.sample_rate_hz),
    {
        let (found, i): (bool, usize) = self.find(&block.channel);
        if found {
            proof {
                lemma_entry_is_held(*self, i as int);
            }
            self.entries[i].buffer.has_room_in_time()
        } else {
            proof {
                self.lemma_absent(block.channel@, i as int);
            }
            ChannelBuffer::fits(block.sample_rate_hz)
        }
    }

    /// Takes in a block: its channel takes in the samples, and is added where it is new; every
    /// other channel stays as it is.
    pub fn take(&mut self, block: &WaveBlock)
        requires
            old(self).well_formed(),
            can_take(old(self)@, block.channel@, block.sample_rate_hz),
        ensures
            final(self).well_formed(),
            final(self)@.contains_key(block.channel@),
            final(self)@ == old(self)@.insert(block.channel@, final(self)@[block.channel@]),
            is_taken(old(self)@, *block, final(self)@[block.channel@]),
    {
        let (found, i): (bool, usize) = self.find(&block.channel);
        let ghost before = *self;
        let ghost name = block.channel@;
        if found {
            proof {
                lemma_entry_is_held(*self, i as int);
            }
        } else {
            proof {
                self.lemma_absent(name, i as int);
            }
            let buffer: ChannelBuffer = ChannelBuffer::new(block.sample_rate_hz);
            self.entries.insert(i, ChannelEntry { channel: block.channel.clone(), buffer });
        }
        let ghost middle = *self;
        self.entries[i].buffer.append(block.start_ms, block.samples.as_slice());
        proof {
            assert(self.entries@ =~= middle.entries@.update(i as int, self.entries@[i as int]));
            assert(self.entries@[i as int].channel == middle.entries@[i as int].channel);
            if found {
                assert(middle == before);
                lemma_same_names(before, *self, i as int);
            } else {
                lemma_inserted(before, *self, i as int, name);
            }
        }
    }

    proof fn lemma_absent(self, name: Seq<char>, place: int)
        requires
            forall|i: int|
                0 <= i < place ==> comes_before(#[trigger] self.entries@[i].channel@, name),
            forall|i: int|
                place <= i < self.entries@.len() ==> comes_before(
                    name,
                    #[trigger] self.entries@[i].channel@,
                ),
        ensures
            !self@.contains_key(name),
    {
        lemma_not_before_itself(name);
        assert forall|i: int| !self.holds_at(i, name) by {
            if self.holds_at(i, name) {
                if i < place {
                    assert(comes_before(self.entries@[i].channel@, name));
                } else {
                    assert(comes_before(name, self.entries@[i].channel@));
                }
            }
        }
    }
}

} // verus!
