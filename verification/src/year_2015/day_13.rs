//! The dinner-table problem: guests sit in a circle, each gaining or losing
//! happiness next to particular neighbours, and the best total arrangement
//! is found by exhaustive search.

use vstd::prelude::*;

use crate::util::{all_digits, completion_ok, fresh_marks, is_word, is_word_str, lemma_completion_exists, lemma_completion_pop, lemma_completion_push, lemma_fresh_count, lemma_unused_list_props, lemma_unused_list_update, num_val, parse_decimal, split_bounds, split_char, str_eq, unused_count, unused_list};

verus! {

/// One parsed preference line: how a guest's happiness changes when seated
/// next to a particular neighbour.
pub struct SeatingPreference {
    pub guest: String,
    pub neighbour: String,
    pub happiness: i32,
}

pub open spec fn would_word() -> Seq<char> {
    seq!['w', 'o', 'u', 'l', 'd']
}

pub open spec fn gain_word() -> Seq<char> {
    seq!['g', 'a', 'i', 'n']
}

pub open spec fn lose_word() -> Seq<char> {
    seq!['l', 'o', 's', 'e']
}

pub open spec fn happiness_word() -> Seq<char> {
    seq!['h', 'a', 'p', 'p', 'i', 'n', 'e', 's', 's']
}

pub open spec fn units_word() -> Seq<char> {
    seq!['u', 'n', 'i', 't', 's']
}

pub open spec fn by_word() -> Seq<char> {
    seq!['b', 'y']
}

pub open spec fn sitting_word() -> Seq<char> {
    seq!['s', 'i', 't', 't', 'i', 'n', 'g']
}

pub open spec fn next_word() -> Seq<char> {
    seq!['n', 'e', 'x', 't']
}

pub open spec fn to_word() -> Seq<char> {
    seq!['t', 'o']
}

/// The preference a line stands for, before any size check: `<guest> would
/// (gain|lose) <amount> happiness units by sitting next to <neighbour>.`
pub open spec fn preference_of(s: Seq<char>) -> Option<(Seq<char>, Seq<char>, int)> {
    let toks = split_char(s, ' ');
    if toks.len() == 11 && is_word(toks[0]) && toks[1] == would_word() && (toks[2] == gain_word()
        || toks[2] == lose_word()) && toks[3].len() > 0 && all_digits(toks[3]) && toks[4]
        == happiness_word() && toks[5] == units_word() && toks[6] == by_word() && toks[7]
        == sitting_word() && toks[8] == next_word() && toks[9] == to_word() && toks[10].len() > 1
        && toks[10].last() == '.' && is_word(toks[10].drop_last()) {
        Some(
            (
                toks[0],
                toks[10].drop_last(),
                if toks[2] == gain_word() {
                    num_val(toks[3])
                } else {
                    -num_val(toks[3])
                },
            ),
        )
    } else {
        None
    }
}

impl SeatingPreference {
    /// Parses one preference line. `Ok` exactly when the line fits the
    /// sentence format that [`preference_of`] describes; amounts too large
    /// for 32 bits are ruled out by the precondition, as real inputs always
    /// fit.
    pub fn from_str(s: &str) -> (r: Result<SeatingPreference, ()>)
        requires
            preference_of(s@) matches Some((g, nb, h)) ==> -0x8000_0000 <= h <= 0x7fff_ffff,
        ensures
            match r {
                Ok(p) => preference_of(s@) == Some((p.guest@, p.neighbour@, p.happiness as int)),
                Err(_) => preference_of(s@) is None,
            },
    {
        proof {
            reveal_strlit("would");
            reveal_strlit("gain");
            reveal_strlit("lose");
            reveal_strlit("happiness");
            reveal_strlit("units");
            reveal_strlit("by");
            reveal_strlit("sitting");
            reveal_strlit("next");
            reveal_strlit("to");
            assert("would"@ =~= would_word());
            assert("gain"@ =~= gain_word());
            assert("lose"@ =~= lose_word());
            assert("happiness"@ =~= happiness_word());
            assert("units"@ =~= units_word());
            assert("by"@ =~= by_word());
            assert("sitting"@ =~= sitting_word());
            assert("next"@ =~= next_word());
            assert("to"@ =~= to_word());
        }
        let bounds = split_bounds(s, ' ');
        if bounds.len() != 11 {
            return Err(());
        }
        let guest = s.substring_char(bounds[0].0, bounds[0].1);
        if !is_word_str(guest) {
            return Err(());
        }
        let words_ok = str_eq(s.substring_char(bounds[1].0, bounds[1].1), "would") && str_eq(
            s.substring_char(bounds[4].0, bounds[4].1),
            "happiness",
        ) && str_eq(s.substring_char(bounds[5].0, bounds[5].1), "units") && str_eq(
            s.substring_char(bounds[6].0, bounds[6].1),
            "by",
        ) && str_eq(s.substring_char(bounds[7].0, bounds[7].1), "sitting") && str_eq(
            s.substring_char(bounds[8].0, bounds[8].1),
            "next",
        ) && str_eq(s.substring_char(bounds[9].0, bounds[9].1), "to");
        if !words_ok {
            return Err(());
        }
        let op = s.substring_char(bounds[2].0, bounds[2].1);
        let gain = str_eq(op, "gain");
        if !(gain || str_eq(op, "lose")) {
            return Err(());
        }
        let amount = match parse_decimal(s.substring_char(bounds[3].0, bounds[3].1)) {
            Some(v) => v,
            None => {
                return Err(());
            },
        };
        let neighbour_tok = s.substring_char(bounds[10].0, bounds[10].1);
        let nlen = neighbour_tok.unicode_len();
        if nlen < 2 || neighbour_tok.get_char(nlen - 1) != '.' {
            return Err(());
        }
        let neighbour = neighbour_tok.substring_char(0, nlen - 1);
        proof {
            assert(neighbour@ =~= neighbour_tok@.drop_last());
        }
        if !is_word_str(neighbour) {
            return Err(());
        }
        proof {
            crate::util::lemma_num_val_nonneg(s@.subrange(
                bounds@[3].0 as int,
                bounds@[3].1 as int,
            ));
            if gain && amount > 0x7fff_ffff {
                assert(false);
            }
            if !gain && amount > 0x8000_0000 {
                assert(false);
            }
        }
        let happiness: i32 = if gain {
            amount as i32
        } else if amount == 0x8000_0000 {
            i32::MIN
        } else {
            -(amount as i32)
        };
        Ok(SeatingPreference { guest: guest.to_owned(), neighbour: neighbour.to_owned(), happiness })
    }
}

/// The happiness change the preference list gives one directed guest pair,
/// later entries overriding earlier ones.
pub open spec fn list_happiness(
    ps: Seq<((String, String), i32)>,
    g: Seq<char>,
    nb: Seq<char>,
) -> Option<int>
    decreases ps.len(),
{
    if ps.len() == 0 {
        None
    } else if ps.last().0.0@ == g && ps.last().0.1@ == nb {
        Some(ps.last().1 as int)
    } else {
        list_happiness(ps.drop_last(), g, nb)
    }
}

proof fn lemma_list_happiness_range(ps: Seq<((String, String), i32)>, g: Seq<char>, nb: Seq<char>)
    ensures
        list_happiness(ps, g, nb) matches Some(v) ==> -0x8000_0000 <= v <= 0x7fff_ffff,
    decreases ps.len(),
{
    if ps.len() > 0 {
        lemma_list_happiness_range(ps.drop_last(), g, nb);
    }
}

/// The guests and their seating preferences.
pub struct SeatingPlan {
    guests: Vec<String>,
    preferences: Vec<((String, String), i32)>,
}

impl SeatingPlan {
    /// The guest names, in first-appearance order.
    pub closed spec fn guest_names(&self) -> Seq<Seq<char>> {
        self.guests@.map_values(|v: String| v@)
    }

    /// The recorded happiness change for a guest next to a neighbour.
    pub closed spec fn pref(&self, g: Seq<char>, nb: Seq<char>) -> Option<int> {
        list_happiness(self.preferences@, g, nb)
    }

    /// Guest names are listed once each. `new` establishes this and every
    /// method preserves it.
    pub closed spec fn guests_ok(&self) -> bool {
        forall|i: int, j: int|
            0 <= i < j < self.guests@.len() ==> self.guests@[i]@ != self.guests@[j]@
    }

    /// An empty plan.
    pub fn new() -> (p: SeatingPlan)
        ensures
            p.guest_names() == Seq::<Seq<char>>::empty(),
            p.guests_ok(),
            forall|g: Seq<char>, nb: Seq<char>| #[trigger] p.pref(g, nb) is None,
    {
        let p = SeatingPlan { guests: Vec::new(), preferences: Vec::new() };
        proof {
            assert(p.guest_names() =~= Seq::<Seq<char>>::empty());
        }
        p
    }

    /// The guests known so far.
    pub fn guests(&self) -> (r: &Vec<String>)
        ensures
            r@.map_values(|v: String| v@) == self.guest_names(),
    {
        &self.guests
    }

    fn find_guest(&self, name: &str) -> (r: Option<usize>)
        requires
            self.guests_ok(),
        ensures
            match r {
                Some(i) => i < self.guest_names().len() && self.guest_names()[i as int] == name@,
                None => !self.guest_names().contains(name@),
            },
    {
        let n = self.guests.len();
        let mut i: usize = 0;
        while i < n
            invariant
                n == self.guests@.len(),
                i <= n,
                forall|j: int| 0 <= j < i ==> self.guest_names()[j] != name@,
            decreases n - i,
        {
            if str_eq(self.guests[i].as_str(), name) {
                return Some(i);
            }
            i = i + 1;
        }
        proof {
            if self.guest_names().contains(name@) {
                let j = choose|j: int|
                    0 <= j < self.guest_names().len() && self.guest_names()[j] == name@;
                assert(false);
            }
        }
        None
    }

    /// Records a preference, making its guest (but not the neighbour, who
    /// will have preferences of their own) a known guest.
    pub fn add_preference(&mut self, preference: SeatingPreference)
        requires
            old(self).guests_ok(),
        ensures
            final(self).guests_ok(),
            final(self).guest_names() == if old(self).guest_names().contains(preference.guest@) {
                old(self).guest_names()
            } else {
                old(self).guest_names().push(preference.guest@)
            },
            forall|g: Seq<char>, nb: Seq<char>| #[trigger]
                final(self).pref(g, nb) == if preference.guest@ == g && preference.neighbour@
                    == nb {
                    Some(preference.happiness as int)
                } else {
                    old(self).pref(g, nb)
                },
    {
        let SeatingPreference { guest, neighbour, happiness } = preference;
        let ghost names0 = self.guest_names();
        match self.find_guest(guest.as_str()) {
            Some(_) => {
                proof {
                    assert(self.guest_names().contains(guest@));
                }
            },
            None => {
                self.guests.push(guest.clone());
                proof {
                    assert(self.guest_names() =~= names0.push(guest@));
                    assert forall|i: int, j: int|
                        0 <= i < j < self.guests@.len() implies self.guests@[i]@
                        != self.guests@[j]@ by {
                        if j == self.guests@.len() - 1 {
                            assert(!names0.contains(guest@));
                            assert(names0[i] == self.guests@[i]@);
                        }
                    };
                }
            },
        }
        let ghost ps0 = self.preferences@;
        self.preferences.push(((guest, neighbour), happiness));
        proof {
            assert(self.preferences@.drop_last() =~= ps0);
        }
    }

    /// Mutual happiness of one adjacent pair: what each gains or loses from
    /// sitting next to the other. A missing preference counts as zero,
    /// though a fully acquainted table has none.
    pub open spec fn pair_happiness(&self, i: int, j: int) -> int {
        (match self.pref(self.guest_names()[i], self.guest_names()[j]) {
            Some(v) => v,
            None => 0,
        }) + (match self.pref(self.guest_names()[j], self.guest_names()[i]) {
            Some(v) => v,
            None => 0,
        })
    }

    /// Happiness of the rest of the circle: from the guest at `last`,
    /// through the guests listed in `q`, and closing back to `first`.
    pub open spec fn circle_tail(&self, last: int, first: int, q: Seq<int>) -> int
        decreases q.len(),
    {
        if q.len() == 0 {
            self.pair_happiness(last, first)
        } else {
            self.pair_happiness(last, q[0]) + self.circle_tail(q[0], first, q.drop_first())
        }
    }

    /// Total happiness of a circular arrangement.
    pub open spec fn circle_happiness(&self, p: Seq<int>) -> int {
        if p.len() == 0 {
            0
        } else {
            self.circle_tail(p[0], p[0], p.drop_first())
        }
    }

    /// `p` seats every known guest exactly once.
    pub open spec fn is_arrangement(&self, p: Seq<int>) -> bool {
        completion_ok(fresh_marks(self.guest_names().len() as nat), p)
    }

    /// Every ordered pair of distinct guests has a recorded preference.
    pub open spec fn acquainted(&self) -> bool {
        forall|i: int, j: int|
            0 <= i < self.guest_names().len() && 0 <= j < self.guest_names().len() && i != j
                ==> #[trigger] self.pref(self.guest_names()[i], self.guest_names()[j]) is Some
    }

    proof fn lemma_pair_range(&self, i: int, j: int)
        ensures
            -0x1_0000_0000 <= self.pair_happiness(i, j) <= 0x1_0000_0000,
    {
        lemma_list_happiness_range(
            self.preferences@,
            self.guest_names()[i],
            self.guest_names()[j],
        );
        lemma_list_happiness_range(
            self.preferences@,
            self.guest_names()[j],
            self.guest_names()[i],
        );
    }

    proof fn lemma_circle_tail_range(&self, last: int, first: int, q: Seq<int>)
        ensures
            -(q.len() + 1) * 0x1_0000_0000 <= self.circle_tail(last, first, q) <= (q.len() + 1)
                * 0x1_0000_0000,
        decreases q.len(),
    {
        if q.len() == 0 {
            self.lemma_pair_range(last, first);
        } else {
            self.lemma_pair_range(last, q[0]);
            self.lemma_circle_tail_range(q[0], first, q.drop_first());
        }
    }

    /// The stored happiness change of `i` for sitting next to `j`.
    fn happiness_between(&self, i: usize, j: usize) -> (r: i32)
        requires
            i < self.guest_names().len(),
            j < self.guest_names().len(),
            self.pref(self.guest_names()[i as int], self.guest_names()[j as int]) is Some,
        ensures
            Some(r as int) == self.pref(
                self.guest_names()[i as int],
                self.guest_names()[j as int],
            ),
    {
        let ghost g = self.guest_names()[i as int];
        let ghost nb = self.guest_names()[j as int];
        proof {
            assert(self.guest_names().len() == self.guests@.len());
            assert(g == self.guests@[i as int]@);
            assert(nb == self.guests@[j as int]@);
            assert(self.preferences@.take(self.preferences@.len() as int) =~= self.preferences@);
        }
        let m = self.preferences.len();
        let mut k = m;
        while k > 0
            invariant
                m == self.preferences@.len(),
                k <= m,
                i < self.guests@.len(),
                j < self.guests@.len(),
                g == self.guests@[i as int]@,
                nb == self.guests@[j as int]@,
                list_happiness(self.preferences@, g, nb) == list_happiness(
                    self.preferences@.take(k as int),
                    g,
                    nb,
                ),
                list_happiness(self.preferences@, g, nb) is Some,
            decreases k,
        {
            k = k - 1;
            let entry = &self.preferences[k];
            proof {
                assert(self.preferences@.take(k + 1).drop_last() =~= self.preferences@.take(
                    k as int,
                ));
                assert(self.preferences@.take(k + 1).last() == self.preferences@[k as int]);
            }
            if str_eq(entry.0.0.as_str(), self.guests[i].as_str()) && str_eq(
                entry.0.1.as_str(),
                self.guests[j].as_str(),
            ) {
                return entry.1;
            }
        }
        proof {
            assert(self.preferences@.take(0) =~= Seq::<((String, String), i32)>::empty());
            assert(false);
        }
        0
    }

    /// Mutual happiness of the adjacent pair `i`, `j`.
    fn pair_between(&self, i: usize, j: usize) -> (r: i64)
        requires
            self.acquainted(),
            i < self.guest_names().len(),
            j < self.guest_names().len(),
            i != j,
        ensures
            r == self.pair_happiness(i as int, j as int),
            -0x1_0000_0000 <= r <= 0x1_0000_0000,
    {
        let a = self.happiness_between(i, j);
        let b = self.happiness_between(j, i);
        a as i64 + b as i64
    }

    /// Happiest way of seating every unmarked guest, continuing from the
    /// guest at `last` and closing the circle back at `first`.
    fn explore(&self, used: &mut Vec<bool>, last: usize, first: usize, remaining: usize) -> (r:
        i64)
        requires
            self.guests_ok(),
            self.acquainted(),
            old(used)@.len() == self.guest_names().len(),
            old(used)@.len() <= 0x3fff_ffff,
            last < old(used)@.len(),
            first < old(used)@.len(),
            old(used)@[last as int],
            old(used)@[first as int],
            remaining == unused_count(old(used)@),
        ensures
            final(used)@ == old(used)@,
            exists|q: Seq<int>|
                completion_ok(old(used)@, q) && #[trigger] self.circle_tail(
                    last as int,
                    first as int,
                    q,
                ) == r,
            forall|q: Seq<int>|
                completion_ok(old(used)@, q) ==> #[trigger] self.circle_tail(
                    last as int,
                    first as int,
                    q,
                ) <= r,
        decreases remaining,
    {
        proof {
            lemma_unused_list_props(old(used)@, 0);
        }
        if remaining == 0 {
            let closing = if last != first {
                self.pair_between(last, first)
            } else {
                self.closing_self_pair(last)
            };
            proof {
                lemma_completion_exists(used@);
                assert(unused_list(used@, 0) =~= Seq::<int>::empty());
                assert(self.circle_tail(last as int, first as int, unused_list(used@, 0))
                    == closing);
                assert forall|q: Seq<int>|
                    completion_ok(used@, q) implies #[trigger] self.circle_tail(
                    last as int,
                    first as int,
                    q,
                ) <= closing by {
                    assert(q.len() == 0);
                    assert(q =~= Seq::<int>::empty());
                };
            }
            return closing;
        }
        let n = used.len();
        let ghost entry = used@;
        let mut best: i64 = i64::MIN;
        let mut v: usize = 0;
        while v < n
            invariant
                self.guests_ok(),
                self.acquainted(),
                n == entry.len(),
                entry.len() == self.guest_names().len(),
                n <= 0x3fff_ffff,
                last < n,
                first < n,
                entry[last as int],
                entry[first as int],
                1 <= remaining <= n,
                remaining == unused_count(entry),
                v <= n,
                used@ == entry,
                forall|q: Seq<int>|
                    completion_ok(entry, q) && q[0] < v ==> #[trigger] self.circle_tail(
                        last as int,
                        first as int,
                        q,
                    ) <= best,
                (exists|q: Seq<int>|
                    completion_ok(entry, q) && q[0] < v && #[trigger] self.circle_tail(
                        last as int,
                        first as int,
                        q,
                    ) == best) || best == i64::MIN,
            decreases n - v,
        {
            if !used[v] {
                proof {
                    lemma_unused_list_update(entry, v as int, 0);
                }
                used.set(v, true);
                let m = self.explore(used, v, first, remaining - 1);
                used.set(v, false);
                proof {
                    assert(used@ =~= entry);
                }
                let wv = self.pair_between(last, v);
                let ghost upd = entry.update(v as int, true);
                let ghost q1 = choose|q: Seq<int>|
                    completion_ok(upd, q) && #[trigger] self.circle_tail(v as int, first as int, q)
                        == m;
                proof {
                    self.lemma_circle_tail_range(v as int, first as int, q1);
                    lemma_unused_list_props(upd, 0);
                    assert(q1.len() <= n);
                }
                let cand = wv + m;
                proof {
                    lemma_completion_push(entry, v as int, q1);
                    assert((seq![v as int] + q1).drop_first() =~= q1);
                    assert(self.circle_tail(last as int, first as int, seq![v as int] + q1)
                        == cand);
                    assert forall|q: Seq<int>|
                        completion_ok(entry, q) && q[0] == v implies #[trigger] self.circle_tail(
                        last as int,
                        first as int,
                        q,
                    ) <= cand by {
                        lemma_completion_pop(entry, v as int, q);
                        assert(self.circle_tail(last as int, first as int, q) == wv
                            + self.circle_tail(v as int, first as int, q.drop_first()));
                    };
                }
                if best == i64::MIN || cand > best {
                    best = cand;
                }
            }
            v = v + 1;
        }
        proof {
            lemma_completion_exists(entry);
            let q0 = unused_list(entry, 0);
            lemma_unused_list_props(entry, 0);
            self.lemma_circle_tail_range(last as int, first as int, q0);
            assert(q0.len() >= 1);
            assert(0 <= q0[0] < n);
            if best == i64::MIN {
                assert(self.circle_tail(last as int, first as int, q0) <= best);
                assert(false);
            }
        }
        best
    }

    /// Mutual happiness of a guest seated next to themselves, as the closing
    /// pair of a one-guest table reads it.
    fn closing_self_pair(&self, i: usize) -> (r: i64)
        requires
            i < self.guest_names().len(),
        ensures
            r == self.pair_happiness(i as int, i as int),
    {
        proof {
            lemma_list_happiness_range(
                self.preferences@,
                self.guest_names()[i as int],
                self.guest_names()[i as int],
            );
        }
        match self.lookup_pref(i, i) {
            Some(v) => 2 * (v as i64),
            None => 0,
        }
    }

    /// The stored preference of guest `i` about guest `j`, if any.
    fn lookup_pref(&self, i: usize, j: usize) -> (r: Option<i32>)
        requires
            i < self.guest_names().len(),
            j < self.guest_names().len(),
        ensures
            match r {
                Some(v) => self.pref(
                    self.guest_names()[i as int],
                    self.guest_names()[j as int],
                ) == Some(v as int),
                None => self.pref(
                    self.guest_names()[i as int],
                    self.guest_names()[j as int],
                ) is None,
            },
    {
        let ghost g = self.guest_names()[i as int];
        let ghost nb = self.guest_names()[j as int];
        proof {
            assert(self.guest_names().len() == self.guests@.len());
            assert(g == self.guests@[i as int]@);
            assert(nb == self.guests@[j as int]@);
            assert(self.preferences@.take(self.preferences@.len() as int) =~= self.preferences@);
        }
        let m = self.preferences.len();
        let mut k = m;
        while k > 0
            invariant
                m == self.preferences@.len(),
                k <= m,
                i < self.guests@.len(),
                j < self.guests@.len(),
                g == self.guests@[i as int]@,
                nb == self.guests@[j as int]@,
                list_happiness(self.preferences@, g, nb) == list_happiness(
                    self.preferences@.take(k as int),
                    g,
                    nb,
                ),
            decreases k,
        {
            k = k - 1;
            let entry = &self.preferences[k];
            proof {
                assert(self.preferences@.take(k + 1).drop_last() =~= self.preferences@.take(
                    k as int,
                ));
                assert(self.preferences@.take(k + 1).last() == self.preferences@[k as int]);
            }
            if str_eq(entry.0.0.as_str(), self.guests[i].as_str()) && str_eq(
                entry.0.1.as_str(),
                self.guests[j].as_str(),
            ) {
                return Some(entry.1);
            }
        }
        proof {
            assert(self.preferences@.take(0) =~= Seq::<((String, String), i32)>::empty());
        }
        None
    }

    /// The total happiness change of the best circular seating arrangement,
    /// found by exhaustive search.
    pub fn happiest_table(&self) -> (r: i32)
        requires
            self.guests_ok(),
            self.acquainted(),
            self.guest_names().len() != 1,
            self.guest_names().len() <= 0x3fff_ffff,
            forall|p: Seq<int>|
                self.is_arrangement(p) ==> -0x8000_0000 <= #[trigger] self.circle_happiness(p)
                    <= 0x7fff_ffff,
        ensures
            exists|p: Seq<int>|
                self.is_arrangement(p) && #[trigger] self.circle_happiness(p) == r,
            forall|p: Seq<int>|
                self.is_arrangement(p) ==> #[trigger] self.circle_happiness(p) <= r,
    {
        let n = self.guests.len();
        proof {
            assert(n == self.guest_names().len());
        }
        let ghost fresh = fresh_marks(n as nat);
        if n == 0 {
            proof {
                lemma_completion_exists(fresh);
                assert(unused_list(fresh, 0) =~= Seq::<int>::empty());
                assert(self.circle_happiness(unused_list(fresh, 0)) == 0);
                assert forall|p: Seq<int>|
                    self.is_arrangement(p) implies #[trigger] self.circle_happiness(p) <= 0 by {
                    assert(p.len() == 0);
                };
            }
            return 0;
        }
        let mut used: Vec<bool> = Vec::new();
        let mut k: usize = 0;
        while k < n
            invariant
                k <= n,
                used@.len() == k,
                forall|j: int| 0 <= j < k ==> !(#[trigger] used@[j]),
            decreases n - k,
        {
            used.push(false);
            k = k + 1;
        }
        proof {
            assert(used@ =~= fresh);
            lemma_fresh_count(n as nat, 0);
        }
        let mut best: i64 = i64::MIN;
        let mut v: usize = 0;
        while v < n
            invariant
                self.guests_ok(),
                self.acquainted(),
                n == self.guest_names().len(),
                1 <= n <= 0x3fff_ffff,
                fresh == fresh_marks(n as nat),
                used@ == fresh,
                unused_count(fresh) == n,
                v <= n,
                forall|p: Seq<int>|
                    self.is_arrangement(p) && p[0] < v ==> #[trigger] self.circle_happiness(p)
                        <= best,
                (exists|p: Seq<int>|
                    self.is_arrangement(p) && p[0] < v && #[trigger] self.circle_happiness(p)
                        == best) || best == i64::MIN,
            decreases n - v,
        {
            proof {
                lemma_unused_list_update(fresh, v as int, 0);
            }
            used.set(v, true);
            let m = self.explore(&mut used, v, v, n - 1);
            used.set(v, false);
            proof {
                assert(used@ =~= fresh);
            }
            let ghost upd = fresh.update(v as int, true);
            let ghost q1 = choose|q: Seq<int>|
                completion_ok(upd, q) && #[trigger] self.circle_tail(v as int, v as int, q) == m;
            proof {
                lemma_completion_push(fresh, v as int, q1);
                assert((seq![v as int] + q1).drop_first() =~= q1);
                assert(self.circle_happiness(seq![v as int] + q1) == m);
                assert forall|p: Seq<int>|
                    self.is_arrangement(p) && p[0] == v implies #[trigger] self.circle_happiness(
                    p,
                ) <= m by {
                    lemma_completion_pop(fresh, v as int, p);
                    assert(self.circle_happiness(p) == self.circle_tail(
                        v as int,
                        v as int,
                        p.drop_first(),
                    ));
                };
            }
            if best == i64::MIN || m > best {
                best = m;
            }
            v = v + 1;
        }
        proof {
            lemma_completion_exists(fresh);
            let p0 = unused_list(fresh, 0);
            lemma_unused_list_props(fresh, 0);
            assert(p0.len() == n);
            assert(0 <= p0[0] < n);
            self.lemma_circle_tail_range(p0[0], p0[0], p0.drop_first());
            if best == i64::MIN {
                assert(self.circle_happiness(p0) <= best);
                assert(false);
            }
            let pw = choose|p: Seq<int>|
                self.is_arrangement(p) && p[0] < n && #[trigger] self.circle_happiness(p) == best;
            assert(-0x8000_0000 <= self.circle_happiness(pw) <= 0x7fff_ffff);
            assert forall|p: Seq<int>|
                self.is_arrangement(p) implies #[trigger] self.circle_happiness(p) <= best by {
                assert(0 <= p[0] < n);
            };
        }
        best as i32
    }
}

impl Default for SeatingPlan {
    /// The same empty plan as `new`.
    fn default() -> (p: Self)
        ensures
            p.guest_names() == Seq::<Seq<char>>::empty(),
            p.guests_ok(),
            forall|g: Seq<char>, nb: Seq<char>| #[trigger] p.pref(g, nb) is None,
    {
        SeatingPlan::new()
    }
}

} // verus!
