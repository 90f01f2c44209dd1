use vstd::prelude::*;

verus! {

/// The name of the sentinel "no entity" label.
pub open spec fn sentinel_label() -> Seq<char> {
    seq!['O']
}

/// A label table of `count` entries before any pair is applied: every id
/// resolves to the sentinel.
pub open spec fn default_labels(count: nat) -> Seq<Seq<char>> {
    Seq::new(count, |i: int| sentinel_label())
}

/// The label table obtained by writing each `(id, name)` pair in order into
/// `base`; a later pair with the same id overwrites an earlier one.
pub open spec fn applied_pairs(base: Seq<Seq<char>>, pairs: Seq<(usize, Seq<char>)>) -> Seq<
    Seq<char>,
>
    decreases pairs.len(),
{
    if pairs.len() == 0 {
        base
    } else {
        applied_pairs(base, pairs.drop_last()).update(
            pairs.last().0 as int,
            pairs.last().1,
        )
    }
}

/// Ordered mapping from a dense label id to a label name, with the name `"O"`
/// reserved as the sentinel that marks "no entity". Immutable after
/// construction.
pub struct LabelTable {
    pub labels: Vec<String>,
}

impl View for LabelTable {
    type V = Seq<Seq<char>>;

    open spec fn view(&self) -> Seq<Seq<char>> {
        self.labels.deep_view()
    }
}

impl LabelTable {
    /// Builds a table of `count` labels from `(id, name)` pairs, with every
    /// id that no pair names resolving to the sentinel.
    pub fn build(count: usize, pairs: &Vec<(usize, String)>) -> (table: LabelTable)
        requires
            forall|i: int| 0 <= i < pairs.len() ==> (#[trigger] pairs@[i]).0 < count,
        ensures
            table@ == applied_pairs(default_labels(count as nat), pairs.deep_view()),
    {
        let mut labels: Vec<String> = Vec::new();
        let mut i: usize = 0;
        while i < count
            invariant
                i <= count,
                labels.len() == i,
                labels.deep_view() == default_labels(i as nat),
            decreases count - i,
        {
            let ghost prev = labels@;
            let ghost prev_dv = labels.deep_view();
            let name = "O".to_owned();
            proof {
                reveal_strlit("O");
                assert(name@ =~= sentinel_label());
            }
            labels.push(name);
            proof {
                assert forall|k: int| 0 <= k < i + 1 implies labels.deep_view()[k]
                    == sentinel_label() by {
                    if k < i {
                        assert(labels@[k] == prev[k]);
                        assert(prev_dv[k] == default_labels(i as nat)[k]);
                    } else {
                        assert(labels@[k]@ =~= sentinel_label());
                    }
                }
                assert(labels.deep_view() =~~= default_labels((i + 1) as nat));
            }
            i = i + 1;
        }
        let mut j: usize = 0;
        while j < pairs.len()
            invariant
                j <= pairs.len(),
                forall|k: int| 0 <= k < pairs.len() ==> (#[trigger] pairs@[k]).0 < count,
                labels.len() == count,
                labels.deep_view() == applied_pairs(
                    default_labels(count as nat),
                    pairs.deep_view().subrange(0, j as int),
                ),
            decreases pairs.len() - j,
        {
            let id = pairs[j].0;
            let name = pairs[j].1.clone();
            labels.set(id, name);
            proof {
                let prefix = pairs.deep_view().subrange(0, j as int);
                let next = pairs.deep_view().subrange(0, j + 1);
                assert(next.drop_last() =~= prefix);
                assert(next.last() == pairs.deep_view()[j as int]);
                assert(labels.deep_view() =~~= applied_pairs(
                    default_labels(count as nat),
                    next,
                ));
            }
            j = j + 1;
        }
        proof {
            assert(pairs.deep_view().subrange(0, pairs.len() as int) =~= pairs.deep_view());
        }
        LabelTable { labels }
    }

    /// How many labels the table holds.
    pub fn count(&self) -> (n: usize)
        ensures
            n == self@.len(),
    {
        self.labels.len()
    }

    /// The name of label `id`.
    pub fn name_of(&self, id: usize) -> (name: &String)
        requires
            id < self@.len(),
        ensures
            name@ == self@[id as int],
    {
        &self.labels[id]
    }
}

} // verus!
