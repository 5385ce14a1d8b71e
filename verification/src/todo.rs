//! The todo list itself: an ordered sequence of items, each a piece of text
//! with a completion flag.  Every operation's contract pins down the
//! resulting sequence; positions supplied by the user are 1-based, as shown
//! by `list`.

use vstd::prelude::*;

use crate::error::TodoError;
use crate::text::dec_rep;
use crate::text::parse_i32_spec;
use crate::text::parse_i32;
use crate::text::push_dec;

verus! {

/// Whether an item has been completed.  A one-way flag: `done` moves an item
/// to `Finished`, and nothing moves it back.
#[derive(Clone, Copy, Debug)]
pub enum TodoItemState {
    NotFinished,
    Finished,
}

/// One entry of the list: its text and its completion state.
#[derive(Debug)]
pub struct TodoItem {
    pub content: String,
    pub state: TodoItemState,
}

impl View for TodoItem {
    type V = (Seq<char>, bool);

    open spec fn view(&self) -> (Seq<char>, bool) {
        (self.content@, self.state is Finished)
    }
}

/// An ordered list of items.  Insertion order is the display and addressing
/// order; it is never sorted or deduplicated.
#[derive(Debug)]
pub struct TodoList {
    pub list: Vec<TodoItem>,
}

impl View for TodoList {
    type V = Seq<(Seq<char>, bool)>;

    open spec fn view(&self) -> Seq<(Seq<char>, bool)> {
        self.list@.map_values(|it: TodoItem| it@)
    }
}

/// The character sequences of a list of argument strings.
pub open spec fn param_views(params: Seq<String>) -> Seq<Seq<char>> {
    params.map_values(|p: String| p@)
}

/// Every argument reads as an integer.
pub open spec fn all_params_parse(ps: Seq<Seq<char>>) -> bool {
    forall|k: int| 0 <= k < ps.len() ==> (#[trigger] parse_i32_spec(ps[k])) is Some
}

/// Every argument names a 1-based position of a list of length `len`.
pub open spec fn all_params_in_range(ps: Seq<Seq<char>>, len: nat) -> bool {
    forall|k: int| 0 <= k < ps.len() ==> 1 <= (#[trigger] parse_i32_spec(ps[k])).unwrap() <= len
}

/// The set of 0-based positions named by the arguments.
pub open spec fn targets(ps: Seq<Seq<char>>) -> Set<int> {
    Set::new(
        |j: int|
            exists|k: int|
                0 <= k < ps.len() && #[trigger] parse_i32_spec(ps[k]) == Some(j + 1),
    )
}

/// The text of the line `list` shows for the item at 1-based position `pos`.
pub open spec fn line_text(pos: int, content: Seq<char>) -> Seq<char> {
    dec_rep(pos as nat) + seq!['.', ' '] + content
}

impl TodoList {
    /// A fresh, empty list.
    pub fn new() -> (r: TodoList)
        ensures
            r@ == Seq::<(Seq<char>, bool)>::empty(),
    {
        let l = TodoList { list: Vec::new() };
        proof {
            assert(l@ =~= Seq::<(Seq<char>, bool)>::empty());
        }
        l
    }

    /// Appends one not-yet-finished item per input string, in input order,
    /// leaving everything already present untouched.  Returns whether the
    /// list changed, so that a caller knows whether anything needs to be
    /// persisted.
    pub fn add(&mut self, items: &Vec<String>) -> (changed: bool)
        ensures
            changed == (items@.len() > 0),
            final(self)@ == old(self)@ + items@.map_values(|s: String| (s@, false)),
    {
        if items.len() == 0 {
            assert(old(self)@ + items@.map_values(|s: String| (s@, false)) =~= old(self)@);
            return false;
        }
        let mut i: usize = 0;
        while i < items.len()
            invariant
                i <= items@.len(),
                self@ == old(self)@ + items@.take(i as int).map_values(|s: String| (s@, false)),
            decreases items@.len() - i,
        {
            let content = items[i].clone();
            let ghost prev = self@;
            let ghost prev_list = self.list@;
            self.list.push(TodoItem { content, state: TodoItemState::NotFinished });
            proof {
                assert(self.list@ =~= prev_list.push(self.list@.last()));
                assert(self.list@.last()@ == (items@[i as int]@, false));
                assert(self@ =~= prev.push((items@[i as int]@, false)));
                assert(self@ =~= old(self)@ + items@.take(i + 1).map_values(
                    |s: String| (s@, false),
                ));
            }
            i += 1;
        }
        proof {
            assert(items@.take(items@.len() as int) =~= items@);
        }
        true
    }

    /// Renders each item as the line `list` prints for it: its 1-based
    /// position, a dot and a space, then its text, paired with its
    /// completion flag.
    pub fn list(&self) -> (r: Vec<(String, bool)>)
        ensures
            r@.len() == self@.len(),
            forall|j: int|
                0 <= j < self@.len() ==> (#[trigger] r@[j]).0@ == line_text(j + 1, self@[j].0)
                    && r@[j].1 == self@[j].1,
    {
        let mut r: Vec<(String, bool)> = Vec::new();
        let mut j: usize = 0;
        while j < self.list.len()
            invariant
                j <= self.list@.len(),
                r@.len() == j,
                self@.len() == self.list@.len(),
                self@ == self.list@.map_values(|it: TodoItem| it@),
                forall|t: int|
                    0 <= t < j ==> (#[trigger] r@[t]).0@ == line_text(t + 1, self@[t].0)
                        && r@[t].1 == self@[t].1,
            decreases self.list@.len() - j,
        {
            let mut line = String::new();
            push_dec(j + 1, &mut line);
            line.append(". ");
            let it = &self.list[j];
            line.append(it.content.as_str());
            let done_flag = match it.state {
                TodoItemState::Finished => true,
                TodoItemState::NotFinished => false,
            };
            proof {
                reveal_strlit(". ");
                assert(". "@ =~= seq!['.', ' ']);
                assert(line@ =~= line_text(j + 1, self@[j as int].0));
            }
            r.push((line, done_flag));
            j += 1;
        }
        r
    }
}

/// Reads every argument as an integer, in order, rejecting the whole batch
/// if any argument is malformed.
pub fn transform_params_into_index_list(params: &Vec<String>) -> (r: Result<Vec<i32>, TodoError>)
    ensures
        match r {
            Ok(v) => v@.len() == params@.len() && forall|k: int|
                0 <= k < params@.len() ==> #[trigger] parse_i32_spec(param_views(params@)[k])
                    == Some(v@[k] as int),
            Err(e) => e == TodoError::ParseError && !all_params_parse(param_views(params@)),
        },
{
    let mut v: Vec<i32> = Vec::new();
    let mut k: usize = 0;
    while k < params.len()
        invariant
            k <= params@.len(),
            v@.len() == k,
            forall|t: int|
                0 <= t < k ==> #[trigger] parse_i32_spec(params@[t]@) == Some(v@[t] as int),
        decreases params@.len() - k,
    {
        let p = &params[k];
        match parse_i32(p.as_str()) {
            Some(x) => {
                v.push(x);
            },
            None => {
                proof {
                    assert(parse_i32_spec(param_views(params@)[k as int]) is None);
                    assert(!all_params_parse(param_views(params@)));
                }
                return Err(TodoError::ParseError);
            },
        }
        k += 1;
    }
    proof {
        assert(forall|t: int|
            0 <= t < params@.len() ==> #[trigger] parse_i32_spec(param_views(params@)[t]) == Some(
                v@[t] as int,
            ));
    }
    Ok(v)
}

impl TodoList {
    /// Marks the item at each given 1-based position as finished, touching
    /// nothing else.  The whole batch is validated before anything changes:
    /// a malformed argument or an out-of-range position leaves the list
    /// exactly as it was and reports which rule was broken.
    pub fn done(&mut self, params: Vec<String>) -> (r: Result<(), TodoError>)
        ensures
            ({
                let ps = param_views(params@);
                match r {
                    Ok(_) => all_params_parse(ps) && all_params_in_range(ps, old(self)@.len())
                        && final(self)@.len() == old(self)@.len() && forall|j: int|
                        0 <= j < old(self)@.len() ==> (#[trigger] final(self)@[j]).0 == old(
                            self,
                        )@[j].0 && final(self)@[j].1 == (old(self)@[j].1 || targets(ps).contains(
                            j,
                        )),
                    Err(e) => final(self)@ == old(self)@ && (e == TodoError::ParseError <==> !all_params_parse(ps))
                        && (e == TodoError::IndexOutOfRange <==> all_params_parse(ps)
                        && !all_params_in_range(ps, old(self)@.len())),
                }
            }),
    {
        let idx = match transform_params_into_index_list(&params) {
            Ok(v) => v,
            Err(e) => {
                return Err(e);
            },
        };
        let ghost ps = param_views(params@);
        let mut k: usize = 0;
        while k < idx.len()
            invariant
                k <= idx@.len(),
                idx@.len() == ps.len(),
                ps == param_views(params@),
                forall|t: int|
                    0 <= t < ps.len() ==> #[trigger] parse_i32_spec(ps[t]) == Some(idx@[t] as int),
                forall|t: int| 0 <= t < k ==> 1 <= #[trigger] idx@[t] as int <= old(self)@.len(),
                self@ == old(self)@,
            decreases idx@.len() - k,
        {
            let x = idx[k];
            if x < 1 || (x as usize) > self.list.len() {
                proof {
                    assert(parse_i32_spec(ps[k as int]).unwrap() == x as int);
                    assert(!all_params_in_range(ps, old(self)@.len()));
                }
                return Err(TodoError::IndexOutOfRange);
            }
            k += 1;
        }
        let ghost orig = self@;
        let mut t: usize = 0;
        while t < idx.len()
            invariant
                t <= idx@.len(),
                idx@.len() == ps.len(),
                forall|u: int| 0 <= u < ps.len() ==> 1 <= #[trigger] idx@[u] as int <= orig.len(),
                orig == old(self)@,
                self@.len() == orig.len(),
                forall|j: int| 0 <= j < orig.len() ==> (#[trigger] self@[j]).0 == orig[j].0,
                forall|j: int|
                    0 <= j < orig.len() ==> (#[trigger] self@[j]).1 == (orig[j].1 || exists|u: int|
                        0 <= u < t && idx@[u] as int == j + 1),
            decreases idx@.len() - t,
        {
            let pos = (idx[t] - 1) as usize;
            let ghost prev = self@;
            let ghost prev_list = self.list@;
            let it = self.list.remove(pos);
            self.list.insert(pos, TodoItem { content: it.content, state: TodoItemState::Finished });
            proof {
                assert(self.list@ =~= prev_list.update(pos as int, self.list@[pos as int]));
                assert(self.list@[pos as int]@ == (prev[pos as int].0, true));
                assert(self@ =~= prev.update(pos as int, (prev[pos as int].0, true)));
                assert forall|j: int| 0 <= j < orig.len() implies (#[trigger] self@[j]).1 == (
                orig[j].1 || exists|u: int| 0 <= u < t + 1 && idx@[u] as int == j + 1) by {
                    if j == pos as int {
                        assert(idx@[t as int] as int == j + 1);
                        assert(exists|u: int| 0 <= u < t + 1 && idx@[u] as int == j + 1);
                    } else {
                        assert(self@[j] == prev[j]);
                        if exists|u: int| 0 <= u < t + 1 && idx@[u] as int == j + 1 {
                            let u = choose|u: int| 0 <= u < t + 1 && idx@[u] as int == j + 1;
                            assert(u != t as int);
                            assert(exists|u: int| 0 <= u < t && idx@[u] as int == j + 1);
                        }
                    }
                }
            }
            t += 1;
        }
        proof {
            assert forall|j: int| 0 <= j < orig.len() implies ((exists|u: int|
                0 <= u < idx@.len() && idx@[u] as int == j + 1) <==> targets(ps).contains(j)) by {
                if exists|u: int| 0 <= u < idx@.len() && idx@[u] as int == j + 1 {
                    let u = choose|u: int| 0 <= u < idx@.len() && idx@[u] as int == j + 1;
                    assert(parse_i32_spec(ps[u]) == Some(j + 1));
                    assert(targets(ps).contains(j));
                }
                if targets(ps).contains(j) {
                    let u = choose|u: int|
                        0 <= u < ps.len() && #[trigger] parse_i32_spec(ps[u]) == Some(j + 1);
                    assert(idx@[u] as int == j + 1);
                    assert(exists|w: int| 0 <= w < idx@.len() && idx@[w] as int == j + 1);
                }
            }
        }
        Ok(())
    }
}

/// The subsequence of `s` that keeps, in order, exactly the elements whose
/// position is not in `sel`.
pub open spec fn remove_indices<T>(s: Seq<T>, sel: Set<int>) -> Seq<T>
    decreases s.len(),
{
    if s.len() == 0 {
        Seq::empty()
    } else if sel.contains(s.len() - 1) {
        remove_indices(s.drop_last(), sel)
    } else {
        remove_indices(s.drop_last(), sel).push(s.last())
    }
}

/// Positions at or past the end of the sequence remove nothing.
proof fn lemma_remove_indices_vacuous<T>(s: Seq<T>, sel: Set<int>)
    requires
        forall|j: int| #[trigger] sel.contains(j) ==> j >= s.len(),
    ensures
        remove_indices(s, sel) == s,
    decreases s.len(),
{
    if s.len() > 0 {
        lemma_remove_indices_vacuous(s.drop_last(), sel);
        assert(remove_indices(s, sel) =~= s);
    }
}

/// When every selected position lies beyond `i`, the first `i + 1` elements
/// survive unchanged (so in particular the result is longer than `i`).
proof fn lemma_remove_indices_prefix<T>(s: Seq<T>, sel: Set<int>, i: int)
    requires
        0 <= i < s.len(),
        forall|j: int| #[trigger] sel.contains(j) ==> j > i,
    ensures
        remove_indices(s, sel).len() > i,
        forall|k: int| 0 <= k <= i ==> #[trigger] remove_indices(s, sel)[k] == s[k],
    decreases s.len(),
{
    if i == s.len() - 1 {
        lemma_remove_indices_vacuous(s.drop_last(), sel);
        assert(remove_indices(s, sel) =~= s);
    } else {
        lemma_remove_indices_prefix(s.drop_last(), sel, i);
        assert forall|k: int| 0 <= k <= i implies #[trigger] remove_indices(s, sel)[k] == s[k] by {
            assert(remove_indices(s.drop_last(), sel)[k] == s.drop_last()[k]);
        }
    }
}

/// Removing one more position `i`, lying below every already selected one,
/// removes exactly the element at position `i` of the intermediate result.
proof fn lemma_remove_indices_insert<T>(s: Seq<T>, sel: Set<int>, i: int)
    requires
        0 <= i < s.len(),
        forall|j: int| #[trigger] sel.contains(j) ==> j > i,
    ensures
        remove_indices(s, sel.insert(i)) == remove_indices(s, sel).remove(i),
    decreases s.len(),
{
    lemma_remove_indices_prefix(s, sel, i);
    if i == s.len() - 1 {
        lemma_remove_indices_vacuous(s.drop_last(), sel.insert(i));
        lemma_remove_indices_vacuous(s.drop_last(), sel);
        assert(remove_indices(s, sel) =~= s);
        assert(remove_indices(s, sel.insert(i)) =~= s.drop_last());
        assert(s.remove(i) =~= s.drop_last());
    } else {
        lemma_remove_indices_insert(s.drop_last(), sel, i);
        lemma_remove_indices_prefix(s.drop_last(), sel, i);
        let a = remove_indices(s.drop_last(), sel);
        if sel.contains(s.len() - 1) {
            assert(sel.insert(i).contains(s.len() - 1));
        } else {
            assert(!sel.insert(i).contains(s.len() - 1));
            assert(a.remove(i).push(s.last()) =~= a.push(s.last()).remove(i));
        }
    }
}

/// The set of values held somewhere in a sequence of positions.
pub open spec fn pos_set(s: Seq<usize>) -> Set<int> {
    Set::new(|j: int| exists|k: int| 0 <= k < s.len() && (#[trigger] s[k]) as int == j)
}

/// The largest element of a non-empty vector, together with one position
/// where it occurs.
fn find_max(v: &Vec<usize>) -> (r: (usize, usize))
    requires
        v@.len() > 0,
    ensures
        r.1 < v@.len() && v@[r.1 as int] == r.0,
        forall|k: int| 0 <= k < v@.len() ==> #[trigger] v@[k] <= r.0,
{
    let mut m = v[0];
    let mut mp: usize = 0;
    let mut i: usize = 1;
    while i < v.len()
        invariant
            1 <= i <= v@.len(),
            mp < i,
            v@[mp as int] == m,
            forall|k: int| 0 <= k < i ==> #[trigger] v@[k] <= m,
        decreases v@.len() - i,
    {
        if v[i] > m {
            m = v[i];
            mp = i;
        }
        i += 1;
    }
    (m, mp)
}

/// A copy of `v` with every occurrence of `m` dropped; `w` witnesses that
/// `m` does occur, so the copy is strictly shorter.
fn remove_value(v: &Vec<usize>, m: usize, w: usize) -> (r: Vec<usize>)
    requires
        w < v@.len(),
        v@[w as int] == m,
    ensures
        r@.len() < v@.len(),
        forall|x: usize| #[trigger] r@.contains(x) <==> (v@.contains(x) && x != m),
{
    let mut r: Vec<usize> = Vec::new();
    let mut i: usize = 0;
    while i < v.len()
        invariant
            i <= v@.len(),
            w < v@.len(),
            v@[w as int] == m,
            r@.len() <= i,
            i > w ==> r@.len() < i,
            forall|x: usize| #[trigger] r@.contains(x) <==> (v@.take(i as int).contains(x) && x
                != m),
        decreases v@.len() - i,
    {
        let x = v[i];
        let ghost prev = r@;
        if x != m {
            r.push(x);
        }
        proof {
            assert forall|y: usize| #[trigger] r@.contains(y) <==> (v@.take(i + 1).contains(y) && y
                != m) by {
                if r@.contains(y) {
                    let k = choose|k: int| 0 <= k < r@.len() && r@[k] == y;
                    if x != m && k == prev.len() {
                        assert(y == x);
                        assert(v@.take(i + 1)[i as int] == y);
                        assert(v@.take(i + 1).contains(y));
                    } else {
                        assert(prev[k] == y);
                        assert(prev.contains(y));
                        assert(v@.take(i as int).contains(y));
                        let k2 = choose|k2: int|
                            0 <= k2 < v@.take(i as int).len() && #[trigger] v@.take(i as int)[k2]
                                == y;
                        assert(v@.take(i + 1)[k2] == y);
                        assert(v@.take(i + 1).contains(y));
                    }
                }
                if v@.take(i + 1).contains(y) && y != m {
                    let k = choose|k: int|
                        0 <= k < v@.take(i + 1).len() && #[trigger] v@.take(i + 1)[k] == y;
                    if k == i as int {
                        assert(y == x);
                        assert(r@[prev.len() as int] == y);
                        assert(r@.contains(y));
                    } else {
                        assert(v@.take(i as int)[k] == y);
                        assert(v@.take(i as int).contains(y));
                        assert(prev.contains(y));
                        let k3 = choose|k3: int| 0 <= k3 < prev.len() && prev[k3] == y;
                        assert(r@[k3] == y);
                        assert(r@.contains(y));
                    }
                }
            }
        }
        i += 1;
    }
    proof {
        assert(v@.take(v@.len() as int) =~= v@);
        assert(v@.contains(m));
    }
    r
}

impl TodoList {
    /// Removes the item at each given 1-based position, keeping every other
    /// item in order.  Positions are taken as a set (duplicates act once)
    /// and the items are removed from the highest position downward, so
    /// removing one item never shifts a position that is still to be
    /// removed.  The whole batch is validated before anything changes: a
    /// malformed argument or an out-of-range position leaves the list
    /// exactly as it was and reports which rule was broken.
    pub fn remove(&mut self, params: Vec<String>) -> (r: Result<(), TodoError>)
        ensures
            ({
                let ps = param_views(params@);
                match r {
                    Ok(_) => all_params_parse(ps) && all_params_in_range(ps, old(self)@.len())
                        && final(self)@ == remove_indices(old(self)@, targets(ps)),
                    Err(e) => final(self)@ == old(self)@ && (e == TodoError::ParseError
                        <==> !all_params_parse(ps)) && (e == TodoError::IndexOutOfRange
                        <==> all_params_parse(ps) && !all_params_in_range(ps, old(self)@.len())),
                }
            }),
    {
        let idx = match transform_params_into_index_list(&params) {
            Ok(v) => v,
            Err(e) => {
                return Err(e);
            },
        };
        let ghost ps = param_views(params@);
        let mut k: usize = 0;
        while k < idx.len()
            invariant
                k <= idx@.len(),
                idx@.len() == ps.len(),
                ps == param_views(params@),
                forall|t: int|
                    0 <= t < ps.len() ==> #[trigger] parse_i32_spec(ps[t]) == Some(idx@[t] as int),
                forall|t: int| 0 <= t < k ==> 1 <= #[trigger] idx@[t] as int <= old(self)@.len(),
                self@ == old(self)@,
            decreases idx@.len() - k,
        {
            let x = idx[k];
            if x < 1 || (x as usize) > self.list.len() {
                proof {
                    assert(parse_i32_spec(ps[k as int]).unwrap() == x as int);
                    assert(!all_params_in_range(ps, old(self)@.len()));
                }
                return Err(TodoError::IndexOutOfRange);
            }
            k += 1;
        }
        let mut work: Vec<usize> = Vec::new();
        let mut t: usize = 0;
        while t < idx.len()
            invariant
                t <= idx@.len(),
                work@.len() == t,
                idx@.len() == ps.len(),
                self@ == old(self)@,
                forall|u: int|
                    0 <= u < ps.len() ==> #[trigger] parse_i32_spec(ps[u]) == Some(idx@[u] as int),
                forall|u: int| 0 <= u < ps.len() ==> 1 <= #[trigger] idx@[u] as int <= old(
                    self,
                )@.len(),
                forall|u: int| 0 <= u < t ==> #[trigger] work@[u] as int == idx@[u] - 1,
            decreases idx@.len() - t,
        {
            work.push((idx[t] - 1) as usize);
            t += 1;
        }
        proof {
            assert forall|j: int| pos_set(work@).contains(j) <==> targets(ps).contains(j) by {
                if pos_set(work@).contains(j) {
                    let u = choose|u: int| 0 <= u < work@.len() && (#[trigger] work@[u]) as int
                        == j;
                    assert(parse_i32_spec(ps[u]) == Some(j + 1));
                    assert(targets(ps).contains(j));
                }
                if targets(ps).contains(j) {
                    let u = choose|u: int|
                        0 <= u < ps.len() && #[trigger] parse_i32_spec(ps[u]) == Some(j + 1);
                    assert(idx@[u] as int == j + 1);
                    assert(work@[u] as int == j);
                    assert(pos_set(work@).contains(j));
                }
            }
            assert(pos_set(work@) =~= targets(ps));
        }
        let ghost total = pos_set(work@);
        let ghost orig = self@;
        proof {
            assert forall|j: int| #[trigger] total.contains(j) implies 0 <= j < orig.len() by {
                let u = choose|u: int| 0 <= u < work@.len() && (#[trigger] work@[u]) as int == j;
                assert(1 <= idx@[u] as int <= orig.len());
            }
            assert(total.difference(pos_set(work@)) =~= Set::<int>::empty());
            lemma_remove_indices_vacuous(orig, total.difference(pos_set(work@)));
        }
        while work.len() > 0
            invariant
                orig == old(self)@,
                self@ == remove_indices(orig, total.difference(pos_set(work@))),
                forall|j: int| #[trigger] pos_set(work@).contains(j) ==> total.contains(j),
                forall|j: int| #[trigger] total.contains(j) ==> 0 <= j < orig.len(),
                forall|a: int, b: int|
                    pos_set(work@).contains(a) && total.difference(pos_set(work@)).contains(b)
                        ==> a < b,
            decreases work@.len(),
        {
            let (m, mp) = find_max(&work);
            let rest = remove_value(&work, m, mp);
            let ghost p_old = total.difference(pos_set(work@));
            let ghost p_new = total.difference(pos_set(rest@));
            proof {
                assert((#[trigger] work@[mp as int]) as int == m as int);
                assert(pos_set(work@).contains(m as int));
                assert(total.contains(m as int));
                assert(0 <= m as int && (m as int) < orig.len());
                assert forall|j: int| #[trigger] p_new.contains(j)
                    <==> p_old.insert(m as int).contains(j) by {
                    if j == m as int {
                        if pos_set(rest@).contains(j) {
                            let u = choose|u: int|
                                0 <= u < rest@.len() && (#[trigger] rest@[u]) as int == j;
                            assert(rest@.contains(rest@[u]));
                            assert(rest@[u] == m);
                        }
                        assert(!pos_set(rest@).contains(j));
                    } else {
                        if pos_set(rest@).contains(j) {
                            let u = choose|u: int|
                                0 <= u < rest@.len() && (#[trigger] rest@[u]) as int == j;
                            assert(rest@.contains(rest@[u]));
                            assert(work@.contains(rest@[u]));
                            let w2 = choose|w2: int|
                                0 <= w2 < work@.len() && work@[w2] == rest@[u];
                            assert(pos_set(work@).contains(j));
                        }
                        if pos_set(work@).contains(j) {
                            let u = choose|u: int|
                                0 <= u < work@.len() && (#[trigger] work@[u]) as int == j;
                            assert(work@.contains(work@[u]));
                            assert(work@[u] != m);
                            assert(rest@.contains(work@[u]));
                            let w3 = choose|w3: int|
                                0 <= w3 < rest@.len() && rest@[w3] == work@[u];
                            assert(pos_set(rest@).contains(j));
                        }
                    }
                }
                assert(p_new =~= p_old.insert(m as int));
                assert forall|b: int| #[trigger] p_old.contains(b) implies (m as int) < b by {
                    assert(pos_set(work@).contains(m as int));
                }
                lemma_remove_indices_prefix(orig, p_old, m as int);
                lemma_remove_indices_insert(orig, p_old, m as int);
            }
            let ghost prev = self@;
            let ghost prev_list = self.list@;
            self.list.remove(m);
            proof {
                assert(self@ =~= prev.remove(m as int));
                assert(self@ =~= remove_indices(orig, p_new));
                assert forall|j: int| #[trigger] pos_set(rest@).contains(j) implies total.contains(
                    j,
                ) by {
                    let u = choose|u: int|
                        0 <= u < rest@.len() && (#[trigger] rest@[u]) as int == j;
                    assert(rest@.contains(rest@[u]));
                    assert(work@.contains(rest@[u]));
                    let w5 = choose|w5: int| 0 <= w5 < work@.len() && work@[w5] == rest@[u];
                    assert(pos_set(work@).contains(j));
                }
                assert forall|a: int, b: int|
                    pos_set(rest@).contains(a) && p_new.contains(b) implies a < b by {
                    let u = choose|u: int|
                        0 <= u < rest@.len() && (#[trigger] rest@[u]) as int == a;
                    assert(rest@.contains(rest@[u]));
                    assert(work@.contains(rest@[u]));
                    let w4 = choose|w4: int| 0 <= w4 < work@.len() && work@[w4] == rest@[u];
                    assert(work@[w4] <= m);
                    assert(rest@[u] != m);
                    assert(a < m as int);
                    assert(pos_set(work@).contains(a));
                    if b != m as int {
                        assert(p_old.contains(b));
                    }
                }
            }
            work = rest;
        }
        proof {
            assert(pos_set(work@) =~= Set::<int>::empty());
            assert(total.difference(pos_set(work@)) =~= total);
        }
        Ok(())
    }
}

/// Law: the positions a batch of arguments names depend only on which
/// argument strings occur, not on their order or multiplicity.  Together
/// with the contract of `remove`, two argument lists made of the same
/// strings leave the same list behind, whatever order they came in.
pub proof fn lemma_targets_same_elements(ps1: Seq<Seq<char>>, ps2: Seq<Seq<char>>)
    requires
        forall|x: Seq<char>| ps1.contains(x) <==> ps2.contains(x),
    ensures
        targets(ps1) == targets(ps2),
{
    assert forall|j: int| targets(ps1).contains(j) <==> targets(ps2).contains(j) by {
        if targets(ps1).contains(j) {
            let k = choose|k: int|
                0 <= k < ps1.len() && #[trigger] parse_i32_spec(ps1[k]) == Some(j + 1);
            assert(ps1.contains(ps1[k]));
            assert(ps2.contains(ps1[k]));
            let k2 = choose|k2: int| 0 <= k2 < ps2.len() && ps2[k2] == ps1[k];
            assert(parse_i32_spec(ps2[k2]) == Some(j + 1));
            assert(targets(ps2).contains(j));
        }
        if targets(ps2).contains(j) {
            let k = choose|k: int|
                0 <= k < ps2.len() && #[trigger] parse_i32_spec(ps2[k]) == Some(j + 1);
            assert(ps2.contains(ps2[k]));
            assert(ps1.contains(ps2[k]));
            let k2 = choose|k2: int| 0 <= k2 < ps1.len() && ps1[k2] == ps2[k];
            assert(parse_i32_spec(ps1[k2]) == Some(j + 1));
            assert(targets(ps1).contains(j));
        }
    }
    assert(targets(ps1) =~= targets(ps2));
}

/// An empty marker type; the list itself lives in [`TodoList`].
pub struct Todo {}

} // verus!
