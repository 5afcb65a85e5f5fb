use vstd::prelude::*;

use crate::display::{EventType, KeyEvent};

verus! {

/// Most keys a keyboard report carries at once.
pub const ROLLOVER_CAPACITY: usize = 6;

/// `s` with every occurrence of `code` taken out, the rest in order.
pub open spec fn without(s: Seq<u8>, code: u8) -> Seq<u8>
    decreases s.len(),
{
    if s.len() == 0 {
        s
    } else if s.last() == code {
        without(s.drop_last(), code)
    } else {
        without(s.drop_last(), code).push(s.last())
    }
}

/// The held keys after a press of `code`: kept as they are when `code` is held
/// already or when six keys are held, else `code` is added.
pub open spec fn press_spec(s: Seq<u8>, code: u8) -> Seq<u8> {
    if s.contains(code) || s.len() >= 6 {
        s
    } else {
        s.push(code)
    }
}

/// The held keys after pressing each of `codes` in order.
pub open spec fn press_all(s: Seq<u8>, codes: Seq<u8>) -> Seq<u8>
    decreases codes.len(),
{
    if codes.len() == 0 {
        s
    } else {
        press_spec(press_all(s, codes.drop_last()), codes.last())
    }
}

/// The scan codes of the keys held down, at most six, each at most once.
pub struct RolloverBuffer {
    codes: Vec<u8>,
}

impl View for RolloverBuffer {
    type V = Seq<u8>;

    closed spec fn view(&self) -> Seq<u8> {
        self.codes@
    }
}

/// An 8-byte keyboard report: modifier byte, reserved byte, six key codes.
#[derive(Clone, Copy, Debug)]
pub struct KeyboardReport {
    pub modifier: u8,
    pub reserved: u8,
    pub keycodes: [u8; 6],
}

/// The six key slots of a report of the held keys `s`: the keys in the order
/// they were pressed, then zeros.
pub open spec fn report_slots(s: Seq<u8>) -> Seq<u8> {
    Seq::new(6, |i: int| if i < s.len() { s[i] } else { 0u8 })
}

impl RolloverBuffer {
    pub open spec fn wf(&self) -> bool {
        self@.no_duplicates() && self@.len() <= 6
    }

    pub fn new() -> (r: RolloverBuffer)
        ensures
            r.wf(),
            r@ == Seq::<u8>::empty(),
    {
        RolloverBuffer { codes: Vec::new() }
    }

    pub fn len(&self) -> (r: usize)
        ensures
            r == self@.len(),
    {
        self.codes.len()
    }

    pub fn contains(&self, code: u8) -> (r: bool)
        ensures
            r == self@.contains(code),
    {
        let mut i: usize = 0;
        while i < self.codes.len()
            invariant
                i <= self.codes@.len(),
                forall|j: int| 0 <= j < i ==> self.codes@[j] != code,
            decreases self.codes@.len() - i,
        {
            if self.codes[i] == code {
                return true;
            }
            i = i + 1;
        }
        false
    }

    /// Records a key press. A press while six keys are held is dropped, and a
    /// key already held stays held once. Returns whether `code` is held after.
    pub fn press(&mut self, code: u8) -> (r: bool)
        requires
            old(self).wf(),
        ensures
            final(self).wf(),
            final(self)@ == press_spec(old(self)@, code),
            r == final(self)@.contains(code),
    {
        if self.contains(code) {
            return true;
        }
        if self.codes.len() >= ROLLOVER_CAPACITY {
            return false;
        }
        self.codes.push(code);
        proof {
            assert(self@.last() == code);
        }
        true
    }

    /// Records a key release; releasing a key not held changes nothing.
    pub fn release(&mut self, code: u8)
        requires
            old(self).wf(),
        ensures
            final(self).wf(),
            final(self)@ == without(old(self)@, code),
            !final(self)@.contains(code),
    {
        let mut kept: Vec<u8> = Vec::new();
        let mut i: usize = 0;
        while i < self.codes.len()
            invariant
                i <= self.codes@.len(),
                kept@ == without(self.codes@.subrange(0, i as int), code),
            decreases self.codes@.len() - i,
        {
            let c = self.codes[i];
            proof {
                let next = self.codes@.subrange(0, i + 1);
                assert(next.drop_last() =~= self.codes@.subrange(0, i as int));
                assert(next.last() == c);
            }
            if c != code {
                kept.push(c);
            }
            i = i + 1;
        }
        proof {
            assert(self.codes@.subrange(0, self.codes@.len() as int) =~= self.codes@);
            lemma_without(self.codes@, code);
        }
        self.codes = kept;
    }

    /// Updates the held keys from a key event: a press adds, a release removes.
    pub fn apply(&mut self, ev: KeyEvent)
        requires
            old(self).wf(),
        ensures
            final(self).wf(),
            ev.event_type is KeyDown ==> final(self)@ == press_spec(old(self)@, ev.usb_scan_code),
            ev.event_type is KeyUp ==> final(self)@ == without(old(self)@, ev.usb_scan_code),
    {
        match ev.event_type {
            EventType::KeyDown => {
                self.press(ev.usb_scan_code);
            },
            EventType::KeyUp => {
                self.release(ev.usb_scan_code);
            },
        }
    }

    /// The keyboard report of the held keys, with no modifier.
    pub fn report(&self) -> (r: KeyboardReport)
        requires
            self.wf(),
        ensures
            r.modifier == 0,
            r.reserved == 0,
            r.keycodes@ == report_slots(self@),
    {
        let mut keycodes: [u8; 6] = [0u8; 6];
        let mut i: usize = 0;
        while i < self.codes.len()
            invariant
                self.codes@.len() <= 6,
                i <= self.codes@.len(),
                keycodes@.len() == 6,
                forall|j: int| 0 <= j < i ==> keycodes@[j] == self.codes@[j],
                forall|j: int| i <= j < 6 ==> keycodes@[j] == 0,
            decreases self.codes@.len() - i,
        {
            keycodes[i] = self.codes[i];
            i = i + 1;
        }
        assert(keycodes@ =~= report_slots(self@));
        KeyboardReport { modifier: 0, reserved: 0, keycodes }
    }
}

/// What `without` keeps: every element but `code`, each still at most once; on
/// a sequence without duplicates that holds `code`, exactly one fewer element.
pub proof fn lemma_without(s: Seq<u8>, code: u8)
    ensures
        forall|x: u8| #[trigger] without(s, code).contains(x) <==> (s.contains(x) && x != code),
        without(s, code).len() <= s.len(),
        s.no_duplicates() ==> without(s, code).no_duplicates(),
        s.no_duplicates() && s.contains(code) ==> without(s, code).len() == s.len() - 1,
        !s.contains(code) ==> without(s, code) == s,
    decreases s.len(),
{
    if s.len() > 0 {
        let init = s.drop_last();
        lemma_without(init, code);
        assert(s =~= init.push(s.last()));
        assert forall|x: u8| #[trigger] s.contains(x) <==> (init.contains(x) || x == s.last()) by {
            if s.contains(x) {
                let k = choose|k: int| 0 <= k < s.len() && s[k] == x;
                if k < s.len() - 1 {
                    assert(init[k] == x);
                }
            }
            if init.contains(x) {
                let k = choose|k: int| 0 <= k < init.len() && init[k] == x;
                assert(s[k] == x);
            }
            if x == s.last() {
                assert(s[s.len() - 1] == x);
            }
        }
        let w = without(init, code);
        if s.last() != code {
            assert forall|x: u8| #[trigger] w.push(s.last()).contains(x) <==> (w.contains(x) || x == s.last()) by {
                if w.push(s.last()).contains(x) {
                    let k = choose|k: int| 0 <= k < w.len() + 1 && w.push(s.last())[k] == x;
                    if k < w.len() {
                        assert(w[k] == x);
                    }
                }
                if w.contains(x) {
                    let k = choose|k: int| 0 <= k < w.len() && w[k] == x;
                    assert(w.push(s.last())[k] == x);
                }
                if x == s.last() {
                    assert(w.push(s.last())[w.len() as int] == x);
                }
            }
            if s.no_duplicates() {
                assert(init.no_duplicates()) by {
                    assert forall|a: int, b: int| 0 <= a < init.len() && 0 <= b < init.len() && a != b
                        implies init[a] != init[b] by {
                        assert(s[a] == init[a] && s[b] == init[b]);
                    }
                }
                assert(!init.contains(s.last())) by {
                    if init.contains(s.last()) {
                        let k = choose|k: int| 0 <= k < init.len() && init[k] == s.last();
                        assert(s[k] == s[s.len() - 1]);
                    }
                }
                let wp = w.push(s.last());
                assert forall|a: int, b: int| 0 <= a < wp.len() && 0 <= b < wp.len() && a != b
                    implies wp[a] != wp[b] by {
                    if a < w.len() && b < w.len() {
                        assert(wp[a] == w[a] && wp[b] == w[b]);
                    } else if a < w.len() {
                        assert(w.contains(wp[a]));
                    } else if b < w.len() {
                        assert(w.contains(wp[b]));
                    }
                }
            }
            if !s.contains(code) {
                assert(!init.contains(code));
            }
        } else {
            if s.no_duplicates() {
                assert(init.no_duplicates()) by {
                    assert forall|a: int, b: int| 0 <= a < init.len() && 0 <= b < init.len() && a != b
                        implies init[a] != init[b] by {
                        assert(s[a] == init[a] && s[b] == init[b]);
                    }
                }
                assert(!init.contains(s.last())) by {
                    if init.contains(s.last()) {
                        let k = choose|k: int| 0 <= k < init.len() && init[k] == s.last();
                        assert(s[k] == s[s.len() - 1]);
                    }
                }
            }
        }
    }
}

proof fn lemma_press_distinct_prefix(codes: Seq<u8>, k: int)
    requires
        codes.no_duplicates(),
        0 <= k <= 6,
        k <= codes.len(),
    ensures
        press_all(Seq::empty(), codes.subrange(0, k)) == codes.subrange(0, k),
    decreases k,
{
    if k > 0 {
        let pre = codes.subrange(0, k);
        lemma_press_distinct_prefix(codes, k - 1);
        assert(pre.drop_last() =~= codes.subrange(0, k - 1));
        let init = codes.subrange(0, k - 1);
        assert(!init.contains(codes[k - 1])) by {
            if init.contains(codes[k - 1]) {
                let m = choose|m: int| 0 <= m < init.len() && init[m] == codes[k - 1];
                assert(codes[m] == codes[k - 1]);
            }
        }
        assert(init.push(codes[k - 1]) =~= pre);
    }
}

/// Six-key rollover: pressing seven distinct keys in turn holds exactly the
/// first six, without the seventh; releasing any one of those six and then
/// pressing the seventh holds six keys again, the seventh among them and the
/// released one not.
pub proof fn lemma_rollover_bound(codes: Seq<u8>)
    requires
        codes.len() == 7,
        codes.no_duplicates(),
    ensures
        press_all(Seq::empty(), codes).len() == 6,
        forall|i: int| 0 <= i < 6 ==> press_all(Seq::empty(), codes).contains(#[trigger] codes[i]),
        !press_all(Seq::empty(), codes).contains(codes[6]),
        forall|j: int|
            0 <= j < 6 ==> {
                let t = #[trigger] press_spec(without(press_all(Seq::empty(), codes), codes[j]), codes[6]);
                &&& t.len() == 6
                &&& t.contains(codes[6])
                &&& !t.contains(codes[j])
                &&& forall|i: int| 0 <= i < 6 && i != j ==> t.contains(codes[i])
            },
{
    lemma_press_distinct_prefix(codes, 6);
    let s6 = codes.subrange(0, 6);
    assert(codes.drop_last() =~= s6);
    assert(press_all(Seq::empty(), codes) == press_spec(s6, codes[6]));
    assert(!s6.contains(codes[6])) by {
        if s6.contains(codes[6]) {
            let m = choose|m: int| 0 <= m < 6 && s6[m] == codes[6];
            assert(codes[m] == codes[6]);
        }
    }
    assert(press_all(Seq::empty(), codes) == s6);
    assert forall|i: int| 0 <= i < 6 implies s6.contains(#[trigger] codes[i]) by {
        assert(s6[i] == codes[i]);
    }
    assert(s6.no_duplicates()) by {
        assert forall|a: int, b: int| 0 <= a < 6 && 0 <= b < 6 && a != b implies s6[a] != s6[b] by {
            assert(s6[a] == codes[a] && s6[b] == codes[b]);
        }
    }
    assert forall|j: int| 0 <= j < 6 implies {
        let t = #[trigger] press_spec(without(press_all(Seq::empty(), codes), codes[j]), codes[6]);
        &&& t.len() == 6
        &&& t.contains(codes[6])
        &&& !t.contains(codes[j])
        &&& forall|i: int| 0 <= i < 6 && i != j ==> t.contains(codes[i])
    } by {
        lemma_without(s6, codes[j]);
        let w = without(s6, codes[j]);
        assert(s6.contains(codes[j]));
        assert(!w.contains(codes[6]));
        let t = w.push(codes[6]);
        assert(t.last() == codes[6]);
        assert(t.contains(codes[6])) by {
            assert(t[t.len() - 1] == codes[6]);
        }
        assert(!t.contains(codes[j])) by {
            if t.contains(codes[j]) {
                let m = choose|m: int| 0 <= m < t.len() && t[m] == codes[j];
                if m < w.len() {
                    assert(w[m] == codes[j]);
                    assert(w.contains(codes[j]));
                }
            }
        }
        assert forall|i: int| 0 <= i < 6 && i != j implies t.contains(codes[i]) by {
            assert(s6.contains(codes[i]));
            assert(codes[i] != codes[j]);
            assert(w.contains(codes[i]));
            let m = choose|m: int| 0 <= m < w.len() && w[m] == codes[i];
            assert(t[m] == codes[i]);
        }
    }
}

} // verus!
