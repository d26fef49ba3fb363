//! Moving marked values of a list together, and back to where they came from.
use vstd::prelude::*;

verus! {

/// The values from a position on whose mark is the wanted one, in order.
pub open spec fn marked<T>(values: Seq<T>, marks: Seq<bool>, wanted: bool, from: int) -> Seq<T>
    decreases values.len() - from,
{
    if from >= values.len() {
        Seq::empty()
    } else if marks[from] == wanted {
        seq![values[from]] + marked(values, marks, wanted, from + 1)
    } else {
        marked(values, marks, wanted, from + 1)
    }
}

/// Marks that follow a predicate select what the predicate selects.
pub proof fn lemma_marked_filter<T>(
    values: Seq<T>,
    marks: Seq<bool>,
    from: int,
    pred: spec_fn(T) -> bool,
)
    requires
        0 <= from <= values.len(),
        values.len() == marks.len(),
        forall|i: int| 0 <= i < values.len() ==> pred(#[trigger] values[i]) == marks[i],
    ensures
        marked(values, marks, true, from) == values.skip(from).filter(pred),
    decreases values.len() - from,
{
    if from < values.len() {
        lemma_marked_filter(values, marks, from + 1, pred);
        let head = seq![values[from]];
        assert(values.skip(from) =~= head + values.skip(from + 1));
        Seq::filter_distributes_over_add(head, values.skip(from + 1), pred);
        reveal_with_fuel(Seq::filter, 2);
        assert(head.drop_last() =~= Seq::empty());
        assert(head.filter(pred) =~= if pred(values[from]) {
            head
        } else {
            Seq::empty()
        });
        assert(Seq::empty() + values.skip(from + 1).filter(pred) =~= values.skip(from + 1).filter(
            pred,
        ));
    } else {
        reveal(Seq::filter);
        assert(values.skip(from) =~= Seq::empty());
    }
}

/// Turn a list round.
fn reversed<T>(values: Vec<T>) -> (turned: Vec<T>)
    ensures
        turned@ == values@.reverse(),
{
    let ghost all = values@;
    let mut source = values;
    let mut turned: Vec<T> = Vec::new();
    while source.len() > 0
        invariant
            source@ == all.take(source@.len() as int),
            source@.len() <= all.len(),
            turned@ == all.skip(source@.len() as int).reverse(),
        decreases source@.len(),
    {
        let ghost n = source@.len() as int;
        match source.pop() {
            Some(value) => {
                assert(value == all[n - 1]);
                turned.push(value);
            },
            None => {},
        }
        assert(source@ =~= all.take(n - 1));
        assert(turned@ =~= all.skip(n - 1).reverse());
    }
    assert(all.skip(0) =~= all);
    turned
}

/// Copies of the marked values of a list, in order.
pub fn chosen<T: Copy>(values: &[T], marks: &[bool]) -> (picked: Vec<T>)
    requires
        values@.len() == marks@.len(),
    ensures
        picked@ == marked(values@, marks@, true, 0),
{
    let mut picked: Vec<T> = Vec::new();
    let mut left: usize = values.len();
    while left > 0
        invariant
            values@.len() == marks@.len(),
            left <= values@.len(),
            picked@ == marked(values@, marks@, true, left as int).reverse(),
        decreases left,
    {
        left -= 1;
        if marks[left] {
            picked.push(values[left]);
        }
        assert(picked@ =~= marked(values@, marks@, true, left as int).reverse());
    }
    let picked = reversed(picked);
    assert(picked@ =~= marked(values@, marks@, true, 0));
    picked
}

/// Part the marked values of a list from the others; the others come in reverse.
pub fn part<T>(values: Vec<T>, marks: &[bool]) -> (parts: (Vec<T>, Vec<T>))
    requires
        values@.len() == marks@.len(),
    ensures
        parts.0@ == marked(values@, marks@, true, 0),
        parts.1@ == marked(values@, marks@, false, 0).reverse(),
{
    let ghost all = values@;
    let mut source = values;
    let mut picked: Vec<T> = Vec::new();
    let mut rest: Vec<T> = Vec::new();
    while source.len() > 0
        invariant
            all.len() == marks@.len(),
            source@.len() <= all.len(),
            source@ == all.take(source@.len() as int),
            picked@ == marked(all, marks@, true, source@.len() as int).reverse(),
            rest@ == marked(all, marks@, false, source@.len() as int).reverse(),
        decreases source@.len(),
    {
        let ghost n = source@.len() as int;
        let last: usize = source.len() - 1;
        match source.pop() {
            Some(value) => {
                assert(value == all[n - 1]);
                if marks[last] {
                    picked.push(value);
                } else {
                    rest.push(value);
                }
            },
            None => {},
        }
        assert(source@ =~= all.take(n - 1));
        assert(picked@ =~= marked(all, marks@, true, n - 1).reverse());
        assert(rest@ =~= marked(all, marks@, false, n - 1).reverse());
    }
    let picked = reversed(picked);
    assert(picked@ =~= marked(all, marks@, true, 0));
    (picked, rest)
}

/// Put parted values back where they came from.
pub fn join<T>(
    picked: Vec<T>,
    rest: Vec<T>,
    marks: &[bool],
    Ghost(all): Ghost<Seq<T>>,
) -> (values: Vec<T>)
    requires
        all.len() == marks@.len(),
        picked@ == marked(all, marks@, true, 0),
        rest@ == marked(all, marks@, false, 0).reverse(),
    ensures
        values@ == all,
{
    let mut picked = reversed(picked);
    let mut rest = rest;
    let mut values: Vec<T> = Vec::new();
    let mut i: usize = 0;
    while i < marks.len()
        invariant
            i <= marks@.len(),
            all.len() == marks@.len(),
            values@ == all.take(i as int),
            picked@ == marked(all, marks@, true, i as int).reverse(),
            rest@ == marked(all, marks@, false, i as int).reverse(),
        decreases marks@.len() - i,
    {
        let ghost yes = marked(all, marks@, true, i as int);
        let ghost no = marked(all, marks@, false, i as int);
        let next = if marks[i] {
            assert(yes[0] == all[i as int]);
            assert(yes.reverse().last() == yes[0]);
            picked.pop()
        } else {
            assert(no[0] == all[i as int]);
            assert(no.reverse().last() == no[0]);
            rest.pop()
        };
        match next {
            Some(value) => {
                assert(value == all[i as int]);
                values.push(value);
            },
            None => {
                assert(false);
            },
        }
        assert(picked@ =~= marked(all, marks@, true, i + 1).reverse());
        assert(rest@ =~= marked(all, marks@, false, i + 1).reverse());
        assert(values@ =~= all.take(i + 1));
        i += 1;
    }
    assert(all.take(i as int) =~= all);
    values
}

} // verus!
