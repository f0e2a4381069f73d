//! Game-side lookup from a virtual-button reference string to the in-game
//! action names bound to it.
//!
//! The keybind-file parser that produces this lookup is an external
//! collaborator; the library holds the finished table and answers queries by
//! the numeric join key, which must stay stable so the two sides can be
//! bridged.

use vstd::prelude::*;

use crate::text::{all_ascii, ascii_to_string, chars_of};

verus! {

/// The decimal digit bytes of an eight-bit number, most significant first.
pub open spec fn dec_digits(n: u8) -> Seq<u8>
    decreases n,
{
    if n < 10 {
        seq![(48 + n) as u8]
    } else {
        dec_digits(n / 10) + seq![(48 + n % 10) as u8]
    }
}

/// Executable form of [`dec_digits`].
pub fn dec_digits_vec(n: u8) -> (r: Vec<u8>)
    ensures
        r@ == dec_digits(n),
        all_ascii(r@),
{
    let r: Vec<u8> = if n < 10 {
        vec![48 + n]
    } else if n < 100 {
        vec![48 + n / 10, 48 + n % 10]
    } else {
        vec![48 + n / 100, 48 + (n / 10) % 10, 48 + n % 10]
    };
    proof {
        if n < 10 {
            assert(r@ =~= dec_digits(n));
        } else if n < 100 {
            assert(dec_digits(n) == dec_digits(n / 10) + seq![(48 + n % 10) as u8]);
            assert(n / 10 < 10);
            assert(r@ =~= dec_digits(n));
        } else {
            assert(dec_digits(n) == dec_digits(n / 10) + seq![(48 + n % 10) as u8]);
            assert(dec_digits(n / 10) == dec_digits(n / 10 / 10) + seq![
                (48 + (n / 10) % 10) as u8,
            ]);
            assert(n / 10 / 10 == n / 100);
            assert(n / 100 < 10);
            assert(r@ =~= dec_digits(n));
        }
        assert forall|i: int| 0 <= i < r@.len() implies #[trigger] r@[i] < 128 by {}
    }
    r
}

/// The characters of the reference string `js<joystick>_button<virtual>`.
pub open spec fn js_key(joystick_id: u8, virtual_button_id: u8) -> Seq<char> {
    chars_of(
        seq![106u8, 115u8] + dec_digits(joystick_id) + seq![
            95u8,
            98u8,
            117u8,
            116u8,
            116u8,
            111u8,
            110u8,
        ] + dec_digits(virtual_button_id),
    )
}

/// Position of the first entry with the given reference string.
pub open spec fn action_idx(l: Seq<(Seq<char>, Seq<Seq<char>>)>, k: Seq<char>) -> Option<int>
    decreases l.len(),
{
    if l.len() == 0 {
        None
    } else if l[0].0 == k {
        Some(0)
    } else {
        match action_idx(l.drop_first(), k) {
            Some(i) => Some(i + 1),
            None => None,
        }
    }
}

/// `action_idx` returns exactly the first position carrying the key.
pub proof fn lemma_action_idx(l: Seq<(Seq<char>, Seq<Seq<char>>)>, k: Seq<char>)
    ensures
        match action_idx(l, k) {
            Some(i) => 0 <= i < l.len() && l[i].0 == k && forall|j: int|
                0 <= j < i ==> (#[trigger] l[j]).0 != k,
            None => forall|j: int| 0 <= j < l.len() ==> (#[trigger] l[j]).0 != k,
        },
    decreases l.len(),
{
    if l.len() > 0 && l[0].0 != k {
        let d = l.drop_first();
        lemma_action_idx(d, k);
        assert(forall|j: int| 0 <= j < d.len() ==> #[trigger] d[j] == l[j + 1]);
        match action_idx(d, k) {
            Some(i) => {
                assert forall|j: int| 0 <= j < i + 1 implies (#[trigger] l[j]).0 != k by {
                    if j > 0 {
                        assert(d[j - 1] == l[j]);
                    }
                }
            },
            None => {
                assert forall|j: int| 0 <= j < l.len() implies (#[trigger] l[j]).0 != k by {
                    if j > 0 {
                        assert(d[j - 1] == l[j]);
                    }
                }
            },
        }
    }
}

/// The lookup from a virtual-button reference string to the list of in-game
/// action names bound to it.
#[derive(Debug)]
pub struct GameButtonsMapping {
    /// Reference string (for instance `js1_button2`) to its action names;
    /// more than one name records a duplicated keybind.
    pub map_virtual_button_to_actions: Vec<(String, Vec<String>)>,
}

impl GameButtonsMapping {
    /// Model of the lookup table.
    pub open spec fn table(self) -> Seq<(Seq<char>, Seq<Seq<char>>)> {
        Seq::new(
            self.map_virtual_button_to_actions@.len(),
            |i: int|
                (
                    self.map_virtual_button_to_actions@[i].0@,
                    Seq::new(
                        self.map_virtual_button_to_actions@[i].1@.len(),
                        |j: int| self.map_virtual_button_to_actions@[i].1@[j]@,
                    ),
                ),
        )
    }

    /// Wraps the finished lookup handed back by the keybind-file parser.
    pub fn new(map_virtual_button_to_actions: Vec<(String, Vec<String>)>) -> (r: Self)
        ensures
            r.map_virtual_button_to_actions@ == map_virtual_button_to_actions@,
    {
        Self { map_virtual_button_to_actions }
    }

    /// The action names bound to `js<joystick_id>_button<virtual_button_id>`,
    /// or `None` when that reference string carries no binding.
    pub fn get_action_from_virtual_button_id(&self, virtual_button_id: u8, joystick_id: u8) -> (r:
        Option<&Vec<String>>)
        ensures
            ({
                let key = js_key(joystick_id, virtual_button_id);
                match action_idx(self.table(), key) {
                    Some(i) => {
                        &&& r matches Some(a)
                        &&& Seq::new(a@.len(), |j: int| a@[j]@) == self.table()[i].1
                    },
                    None => r is None,
                }
            }),
    {
        let mut key_bytes: Vec<u8> = vec![106u8, 115u8];
        let mut jd = dec_digits_vec(joystick_id);
        key_bytes.append(&mut jd);
        let mut mid: Vec<u8> = vec![95u8, 98u8, 117u8, 116u8, 116u8, 111u8, 110u8];
        key_bytes.append(&mut mid);
        let mut vd = dec_digits_vec(virtual_button_id);
        key_bytes.append(&mut vd);
        proof {
            assert(key_bytes@ =~= seq![106u8, 115u8] + dec_digits(joystick_id) + seq![
                95u8,
                98u8,
                117u8,
                116u8,
                116u8,
                111u8,
                110u8,
            ] + dec_digits(virtual_button_id));
            assert forall|i: int|
                0 <= i < key_bytes@.len() implies #[trigger] key_bytes@[i] < 128 by {}
        }
        let key = ascii_to_string(key_bytes);
        let ghost keyc = js_key(joystick_id, virtual_button_id);
        proof {
            assert(key@ == keyc);
        }
        let ghost tm = self.table();
        proof {
            lemma_action_idx(tm, keyc);
        }
        let n = self.map_virtual_button_to_actions.len();
        let mut i: usize = 0;
        while i < n
            invariant
                self.map_virtual_button_to_actions@.len() == n,
                tm == self.table(),
                key@ == keyc,
                keyc == js_key(joystick_id, virtual_button_id),
                0 <= i <= n,
                forall|j: int| 0 <= j < i ==> (#[trigger] tm[j]).0 != keyc,
            decreases n - i,
        {
            if self.map_virtual_button_to_actions[i].0.eq(&key) {
                let acts = &self.map_virtual_button_to_actions[i].1;
                proof {
                    lemma_action_idx(tm, keyc);
                    assert(tm[i as int].0 == keyc);
                    assert(action_idx(tm, keyc) == Some(i as int));
                    assert(acts@ == self.map_virtual_button_to_actions@[i as int].1@);
                    assert(Seq::new(acts@.len(), |j: int| acts@[j]@) =~= tm[i as int].1);
                }
                return Some(acts);
            }
            proof {
                assert(tm[i as int].0 == self.map_virtual_button_to_actions@[i as int].0@);
            }
            i += 1;
        }
        proof {
            lemma_action_idx(tm, keyc);
            if action_idx(tm, keyc) is Some {
                let j = action_idx(tm, keyc)->Some_0;
                assert(tm[j].0 == keyc);
            }
        }
        None
    }
}

} // verus!
