//! A list with one of its items selected.

use vstd::prelude::*;
use vstd::arithmetic::div_mod::{
    lemma_add_mod_noop, lemma_mod_add_multiples_vanish, lemma_small_mod, lemma_sub_mod_noop,
};
use crate::error::Error;

verus! {

/// The place that a selection comes to when it is moved by `shift` in a
/// list of `len` items, going round at both ends; nothing is selected in
/// an empty list but the place 0.
pub open spec fn shifted(selected: int, shift: int, len: int) -> int {
    if len <= 0 {
        0
    } else {
        (selected + shift) % len
    }
}

/// The place that a selection comes to when it is moved by `shift`.
pub fn shifted_index(selected: usize, shift: isize, len: usize) -> (index: usize)
    ensures
        index == shifted(selected as int, shift as int, len as int),
        len > 0 ==> index < len,
{
    if len == 0 {
        return 0;
    }
    let base = selected % len;
    if shift >= 0 {
        let step = (shift as usize) % len;
        proof {
            lemma_add_mod_noop(selected as int, shift as int, len as int);
            if base + step < len {
                lemma_small_mod((base + step) as nat, len as nat);
            } else {
                lemma_mod_add_multiples_vanish(base + step - len, len as int);
                lemma_small_mod((base + step - len) as nat, len as nat);
            }
        }
        if step >= len - base {
            step - (len - base)
        } else {
            base + step
        }
    } else {
        let less_one = (-(shift + 1)) as usize;
        let step = (less_one % len + 1) % len;
        proof {
            let m = len as int;
            let magnitude = -(shift as int);
            assert(magnitude == less_one + 1);
            if m > 1 {
                lemma_small_mod(1, len as nat);
            }
            let rest = (less_one as int) % m;
            assert(step == magnitude % m) by {
                lemma_add_mod_noop(less_one as int, 1, m);
                assert((rest + 1int % m) % m == (less_one + 1) % m);
                if m == 1 {
                    assert(1int % m == 0);
                    assert(rest == 0);
                } else {
                    assert(1int % m == 1);
                }
            }
            lemma_sub_mod_noop(selected as int, magnitude, m);
            if base >= step {
                lemma_small_mod((base - step) as nat, len as nat);
            } else {
                lemma_mod_add_multiples_vanish(base - step, m);
                lemma_small_mod((base - step + len) as nat, len as nat);
            }
        }
        if base >= step {
            base - step
        } else {
            len - (step - base)
        }
    }
}

/// The smaller of two numbers.
pub open spec fn least(a: int, b: int) -> int {
    if a <= b {
        a
    } else {
        b
    }
}

/// The greater of two numbers.
pub open spec fn greatest(a: int, b: int) -> int {
    if a >= b {
        a
    } else {
        b
    }
}

/// The first of the items to show on a screen of `height` lines, of which
/// one is taken by the heading and `offset` by what is shown below the
/// selected item: the selected item stands in the middle where there are
/// items enough on both sides, and the last screenful is shown in full.
pub open spec fn first_shown(selected: int, count: int, height: int, offset: int) -> int {
    least(count, greatest(0, least(selected - height / 2 + 1, count - height + 1 + offset)))
}

/// The place behind the last of the items to show.
pub open spec fn end_shown(selected: int, count: int, height: int, offset: int) -> int {
    let first = first_shown(selected, count, height, offset);
    least(count, greatest(first, first + height - 1 - offset))
}

/// The items to show on the screen: from the first place of the result up
/// to, and without, the second.
pub fn visible_range(selected: usize, count: usize, height: u16, offset: u8) -> (range: (usize, usize))
    ensures
        range.0 == first_shown(selected as int, count as int, height as int, offset as int),
        range.1 == end_shown(selected as int, count as int, height as int, offset as int),
        range.0 <= range.1 <= count,
{
    let selected = selected as i128;
    let count = count as i128;
    let height = height as i128;
    let offset = offset as i128;
    let centred = selected - height / 2 + 1;
    let filled = count - height + 1 + offset;
    let mut first = if centred <= filled {
        centred
    } else {
        filled
    };
    if first < 0 {
        first = 0;
    }
    if first > count {
        first = count;
    }
    let mut end = first + height - 1 - offset;
    if end < first {
        end = first;
    }
    if end > count {
        end = count;
    }
    (first as usize, end as usize)
}

/// Items of which one is selected.
#[derive(Debug)]
pub struct ScrollSelector<T> {
    pub selected_index: usize,
    pub data: Vec<T>,
}

impl<T> ScrollSelector<T> {
    /// Moves the selection by `shift` items, going round at both ends.
    pub fn shift(&mut self, shift: isize)
        ensures
            final(self).data == old(self).data,
            final(self).selected_index == shifted(
                old(self).selected_index as int,
                shift as int,
                old(self).data@.len() as int,
            ),
    {
        self.selected_index = shifted_index(self.selected_index, shift, self.data.len());
    }

    pub fn get_selected(&self) -> (selected: Option<&T>)
        ensures
            match selected {
                Some(item) => self.selected_index < self.data@.len() && *item
                    == self.data@[self.selected_index as int],
                None => self.selected_index >= self.data@.len(),
            },
    {
        if self.selected_index < self.data.len() {
            Some(&self.data[self.selected_index])
        } else {
            None
        }
    }

    pub fn has_data(&self) -> (any: bool)
        ensures
            any == (self.data@.len() > 0),
    {
        self.data.len() > 0
    }
}

} // verus!
