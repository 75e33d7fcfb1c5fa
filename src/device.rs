use vstd::prelude::*;

use crate::attribute::{ascii_text, attribute_value, decimal_bytes, read_file_to_usize};
use crate::error::BacklightError;

verus! {

/// One backlight device, as its attribute files stood when they were read.
/// Nothing here holds `brightness` to at most `max_brightness`: that is
/// left to the driver.
#[derive(Debug)]
pub struct Backlight {
    /// The name of the device's directory under the backlight root.
    pub name: String,
    /// The brightness the hardware reports, where the device has that file.
    pub actual_brightness: Option<usize>,
    /// The brightness last asked for.
    pub brightness: usize,
    /// The largest brightness the device takes.
    pub max_brightness: usize,
}

/// The values of a device's attribute files, read in the order `brightness`,
/// `max_brightness`, `actual_brightness`; the first that fails decides the
/// error. An absent `actual_brightness` file gives `None`.
pub open spec fn attributes_of(
    brightness: Seq<char>,
    max_brightness: Seq<char>,
    actual_brightness: Option<Seq<char>>,
) -> Result<(usize, usize, Option<usize>), BacklightError> {
    match attribute_value(brightness) {
        Err(e) => Err(e),
        Ok(b) => match attribute_value(max_brightness) {
            Err(e) => Err(e),
            Ok(m) => match actual_brightness {
                None => Ok((b, m, None)),
                Some(a) => match attribute_value(a) {
                    Err(e) => Err(e),
                    Ok(a) => Ok((b, m, Some(a))),
                },
            },
        },
    }
}

/// The text that `{:?}` gives for a string: the string in double quotes,
/// with its special characters escaped.
pub uninterp spec fn debug_text(s: Seq<char>) -> Seq<char>;

/// Relies on `<str as Debug>::fmt`, through `format!("{:?}")`: the result
/// depends on the characters of `s` alone.
#[verifier::external_body]
fn debug_quoted(s: &str) -> (r: String)
    ensures
        r@ == debug_text(s@),
{
    format!("{:?}", s)
}

/// Relies on `usize::to_string`: the decimal numeral of `v`, with no sign
/// and no leading zero.
#[verifier::external_body]
fn decimal_string(v: usize) -> (r: String)
    ensures
        r@ == ascii_text(decimal_bytes(v as nat)),
{
    v.to_string()
}

/// The decimal numeral of `v` as characters.
pub open spec fn decimal_text(v: usize) -> Seq<char> {
    ascii_text(decimal_bytes(v as nat))
}

/// The text that shows the device `b`: its name, its brightness, its actual
/// brightness where it was read, and its largest brightness, one line each.
pub open spec fn describe_text(b: Backlight) -> Seq<char> {
    "Backlight Name: "@ + debug_text(b.name@) + "\n    Brightness: "@ + decimal_text(
        b.brightness,
    ) + "\n"@ + match b.actual_brightness {
        Some(a) => "    Actual Brightness: "@ + decimal_text(a) + "\n"@,
        None => Seq::<char>::empty(),
    } + "    Max Brightness: "@ + decimal_text(b.max_brightness) + "\n"@
}

impl Backlight {
    /// Builds the device `name` from the text of its attribute files;
    /// `actual_brightness` is `None` where the device has no such file.
    /// Every attribute given must hold a value: nothing is built in part.
    pub fn from_contents(
        name: String,
        brightness: &str,
        max_brightness: &str,
        actual_brightness: Option<&str>,
    ) -> (r: Result<Backlight, BacklightError>)
        ensures
            match attributes_of(
                brightness@,
                max_brightness@,
                match actual_brightness {
                    Some(a) => Some(a@),
                    None => None,
                },
            ) {
                Ok((b, m, a)) => r matches Ok(bl) && bl.name@ == name@ && bl.brightness == b
                    && bl.max_brightness == m && bl.actual_brightness == a,
                Err(e) => r == Err::<Backlight, BacklightError>(e),
            },
    {
        let brightness = match read_file_to_usize(brightness) {
            Ok(v) => v,
            Err(e) => return Err(e),
        };
        let max_brightness = match read_file_to_usize(max_brightness) {
            Ok(v) => v,
            Err(e) => return Err(e),
        };
        let actual_brightness = match actual_brightness {
            None => None,
            Some(text) => match read_file_to_usize(text) {
                Ok(v) => Some(v),
                Err(e) => return Err(e),
            },
        };
        Ok(Backlight { name, actual_brightness, brightness, max_brightness })
    }

    /// The text that shows the device, one field to a line.
    pub fn describe(&self) -> (r: String)
        ensures
            r@ == describe_text(*self),
    {
        let mut text = String::from_str("Backlight Name: ");
        let name = debug_quoted(self.name.as_str());
        text.append(name.as_str());
        text.append("\n    Brightness: ");
        let brightness = decimal_string(self.brightness);
        text.append(brightness.as_str());
        text.append("\n");
        let ghost head = text@;
        match self.actual_brightness {
            Some(a) => {
                text.append("    Actual Brightness: ");
                let actual = decimal_string(a);
                text.append(actual.as_str());
                text.append("\n");
            },
            None => {
                assert(text@ =~= head + Seq::<char>::empty());
            },
        }
        text.append("    Max Brightness: ");
        let max_brightness = decimal_string(self.max_brightness);
        text.append(max_brightness.as_str());
        text.append("\n");
        text
    }

    /// Takes in the text of the `brightness` file as read back after a
    /// write. On success only `brightness` changes; the other fields keep
    /// what was read before. On an error nothing changes.
    pub fn refresh_brightness(&mut self, contents: &str) -> (r: Result<(), BacklightError>)
        ensures
            final(self).name == old(self).name,
            final(self).max_brightness == old(self).max_brightness,
            final(self).actual_brightness == old(self).actual_brightness,
            match attribute_value(contents@) {
                Ok(v) => r is Ok && final(self).brightness == v,
                Err(e) => r == Err::<(), BacklightError>(e) && final(self).brightness
                    == old(self).brightness,
            },
    {
        match read_file_to_usize(contents) {
            Ok(v) => {
                self.brightness = v;
                Ok(())
            },
            Err(e) => Err(e),
        }
    }
}

/// Whether a device of the given name is among `devices`.
pub open spec fn has_name(devices: Seq<Backlight>, name: Seq<char>) -> bool {
    exists|i: int| 0 <= i < devices.len() && (#[trigger] devices[i]).name@ == name
}

/// Whether no two of `devices` share a name.
pub open spec fn unique_names(devices: Seq<Backlight>) -> bool {
    forall|i: int, j: int|
        0 <= i < devices.len() && 0 <= j < devices.len() && i != j
            ==> (#[trigger] devices[i]).name@ != (#[trigger] devices[j]).name@
}

/// The name of the device that is chosen where none is asked for.
pub open spec fn default_name() -> Seq<char> {
    seq!['d', 'e', 'f', 'a', 'u', 'l', 't']
}

/// The order of names by character code, a name before every longer name
/// that it begins.
pub open spec fn name_le(a: Seq<char>, b: Seq<char>) -> bool
    decreases a.len(),
{
    if a.len() == 0 {
        true
    } else if b.len() == 0 {
        false
    } else if a[0] < b[0] {
        true
    } else if a[0] > b[0] {
        false
    } else {
        name_le(a.drop_first(), b.drop_first())
    }
}

proof fn lemma_name_le_total(a: Seq<char>, b: Seq<char>)
    ensures
        name_le(a, b) || name_le(b, a),
    decreases a.len(),
{
    if a.len() > 0 && b.len() > 0 && a[0] == b[0] {
        lemma_name_le_total(a.drop_first(), b.drop_first());
    }
}

proof fn lemma_name_le_transitive(a: Seq<char>, b: Seq<char>, c: Seq<char>)
    requires
        name_le(a, b),
        name_le(b, c),
    ensures
        name_le(a, c),
    decreases a.len(),
{
    if a.len() > 0 && b.len() > 0 && c.len() > 0 && a[0] == b[0] && b[0] == c[0] {
        lemma_name_le_transitive(a.drop_first(), b.drop_first(), c.drop_first());
    }
}

proof fn lemma_name_le_antisymmetric(a: Seq<char>, b: Seq<char>)
    requires
        name_le(a, b),
        name_le(b, a),
    ensures
        a == b,
    decreases a.len(),
{
    if a.len() > 0 {
        lemma_name_le_antisymmetric(a.drop_first(), b.drop_first());
        assert(a[0] == b[0]);
        assert(a =~= seq![a[0]] + a.drop_first());
        assert(b =~= seq![b[0]] + b.drop_first());
    }
}

fn chars_of(s: &str) -> (r: Vec<char>)
    ensures
        r@ == s@,
{
    let mut r: Vec<char> = Vec::new();
    for c in it: s.chars()
        invariant
            it.seq() == s@,
            r@ == s@.subrange(0, it.index() as int),
    {
        assert(s@.subrange(0, it.index() + 1) =~= r@.push(c));
        r.push(c);
    }
    assert(r@ =~= s@);
    r
}

fn names_le(a: &Vec<char>, b: &Vec<char>) -> (r: bool)
    ensures
        r == name_le(a@, b@),
{
    let mut i: usize = 0;
    assert(a@.subrange(0, a@.len() as int) =~= a@);
    assert(b@.subrange(0, b@.len() as int) =~= b@);
    while i < a.len() && i < b.len()
        invariant
            i <= a@.len(),
            i <= b@.len(),
            name_le(a@, b@) == name_le(
                a@.subrange(i as int, a@.len() as int),
                b@.subrange(i as int, b@.len() as int),
            ),
        decreases a.len() - i,
    {
        let x = a[i];
        let y = b[i];
        if x < y {
            return true;
        } else if x > y {
            return false;
        }
        assert(a@.subrange(i as int, a@.len() as int).drop_first() =~= a@.subrange(
            i + 1,
            a@.len() as int,
        ));
        assert(b@.subrange(i as int, b@.len() as int).drop_first() =~= b@.subrange(
            i + 1,
            b@.len() as int,
        ));
        i = i + 1;
    }
    i == a.len()
}

/// Whether `b` is the device to use among `devices` where none is asked
/// for: the one named `default` where there is one, else the one whose name
/// comes first by character code.
pub open spec fn is_default_choice(devices: Seq<Backlight>, b: Backlight) -> bool {
    &&& devices.contains(b)
    &&& if has_name(devices, default_name()) {
        b.name@ == default_name()
    } else {
        forall|i: int| 0 <= i < devices.len() ==> name_le(b.name@, (#[trigger] devices[i]).name@)
    }
}

/// The device to use where none is asked for does not depend on the order
/// in which the devices were found: two collections that hold the same
/// devices, each under its own name, choose the same one.
pub proof fn lemma_default_choice_is_order_free(
    d1: Seq<Backlight>,
    d2: Seq<Backlight>,
    b1: Backlight,
    b2: Backlight,
)
    requires
        unique_names(d1),
        unique_names(d2),
        d1.to_set() == d2.to_set(),
        is_default_choice(d1, b1),
        is_default_choice(d2, b2),
    ensures
        b1 == b2,
{
    assert(d1.to_set().contains(b1));
    assert(d2.contains(b1));
    assert(d2.to_set().contains(b2));
    assert(d1.contains(b2));
    let i1 = choose|i: int| 0 <= i < d1.len() && d1[i] == b1;
    let j1 = choose|i: int| 0 <= i < d1.len() && d1[i] == b2;
    let i2 = choose|i: int| 0 <= i < d2.len() && d2[i] == b1;
    let j2 = choose|i: int| 0 <= i < d2.len() && d2[i] == b2;
    assert(has_name(d1, b1.name@) && has_name(d2, b1.name@));
    assert(has_name(d1, default_name()) == has_name(d2, default_name())) by {
        if has_name(d1, default_name()) {
            let k = choose|k: int| 0 <= k < d1.len() && (#[trigger] d1[k]).name@ == default_name();
            assert(d1.contains(d1[k]));
            assert(d2.to_set().contains(d1[k]));
            let l = choose|l: int| 0 <= l < d2.len() && d2[l] == d1[k];
            assert(d2[l].name@ == default_name());
        }
        if has_name(d2, default_name()) {
            let k = choose|k: int| 0 <= k < d2.len() && (#[trigger] d2[k]).name@ == default_name();
            assert(d2.contains(d2[k]));
            assert(d1.to_set().contains(d2[k]));
            let l = choose|l: int| 0 <= l < d1.len() && d1[l] == d2[k];
            assert(d1[l].name@ == default_name());
        }
    }
    if !has_name(d1, default_name()) {
        assert(name_le(b1.name@, d1[j1].name@));
        assert(name_le(b2.name@, d2[i2].name@));
        lemma_name_le_antisymmetric(b1.name@, b2.name@);
    }
    assert(b1.name@ == b2.name@);
    if i1 != j1 {
        assert(d1[i1].name@ != d1[j1].name@);
    }
}

fn position_of(devices: &Vec<Backlight>, name: &String) -> (r: Option<usize>)
    ensures
        match r {
            Some(i) => i < devices@.len() && devices@[i as int].name@ == name@,
            None => !has_name(devices@, name@),
        },
{
    let mut i: usize = 0;
    while i < devices.len()
        invariant
            i <= devices@.len(),
            forall|j: int| 0 <= j < i ==> (#[trigger] devices@[j]).name@ != name@,
        decreases devices.len() - i,
    {
        if devices[i].name == *name {
            return Some(i);
        }
        i = i + 1;
    }
    None
}

/// The backlight devices found under the backlight root, each under its own
/// name, in the order in which they were found.
pub struct Backlights {
    by_name: Vec<Backlight>,
}

impl View for Backlights {
    type V = Seq<Backlight>;

    closed spec fn view(&self) -> Seq<Backlight> {
        self.by_name@
    }
}

impl Backlights {
    #[verifier::type_invariant]
    spec fn names_unique(&self) -> bool {
        unique_names(self.by_name@)
    }

    /// No devices.
    pub fn new() -> (r: Backlights)
        ensures
            r@ == Seq::<Backlight>::empty(),
            unique_names(r@),
    {
        Backlights { by_name: Vec::new() }
    }

    /// Adds the device `bl`. A device of the same name is replaced, in its
    /// place; any other is added at the end.
    pub fn insert(&mut self, bl: Backlight)
        ensures
            has_name(old(self)@, bl.name@) ==> exists|i: int|
                0 <= i < old(self)@.len() && (#[trigger] old(self)@[i]).name@ == bl.name@
                    && final(self)@ == old(self)@.update(i, bl),
            !has_name(old(self)@, bl.name@) ==> final(self)@ == old(self)@.push(bl),
            unique_names(final(self)@),
    {
        proof {
            use_type_invariant(&*self);
        }
        let mut devices: Vec<Backlight> = Vec::new();
        std::mem::swap(&mut devices, &mut self.by_name);
        match position_of(&devices, &bl.name) {
            Some(i) => {
                let ghost before = devices@;
                devices.set(i, bl);
                assert(devices@ =~= before.update(i as int, bl));
                assert(unique_names(devices@)) by {
                    assert forall|j: int, k: int|
                        0 <= j < devices@.len() && 0 <= k < devices@.len() && j != k
                        implies (#[trigger] devices@[j]).name@ != (#[trigger] devices@[k]).name@ by {
                        if j != i && k != i {
                            assert(before[j] == devices@[j] && before[k] == devices@[k]);
                        } else if j == i {
                            assert(before[k] == devices@[k]);
                        } else {
                            assert(before[j] == devices@[j]);
                        }
                    }
                }
            },
            None => {
                let ghost before = devices@;
                devices.push(bl);
                assert(unique_names(devices@)) by {
                    assert forall|j: int, k: int|
                        0 <= j < devices@.len() && 0 <= k < devices@.len() && j != k
                        implies (#[trigger] devices@[j]).name@ != (#[trigger] devices@[k]).name@ by {
                        if j < before.len() && k < before.len() {
                            assert(before[j] == devices@[j] && before[k] == devices@[k]);
                        } else if j < before.len() {
                            assert(before[j] == devices@[j]);
                        } else {
                            assert(before[k] == devices@[k]);
                        }
                    }
                }
            },
        }
        self.by_name = devices;
    }

    /// The names of the devices, in order.
    pub fn names(&self) -> (r: Vec<String>)
        ensures
            unique_names(self@),
            r@.len() == self@.len(),
            forall|i: int| 0 <= i < r@.len() ==> (#[trigger] r@[i])@ == self@[i].name@,
    {
        proof {
            use_type_invariant(self);
        }
        let mut r: Vec<String> = Vec::new();
        let mut i: usize = 0;
        while i < self.by_name.len()
            invariant
                i <= self.by_name@.len(),
                r@.len() == i,
                forall|j: int| 0 <= j < i ==> (#[trigger] r@[j])@ == self.by_name@[j].name@,
            decreases self.by_name.len() - i,
        {
            r.push(self.by_name[i].name.clone());
            i = i + 1;
        }
        r
    }

    /// Takes out the device of the given name; `NotFound` where there is
    /// none.
    pub fn select(self, name: &str) -> (r: Result<Backlight, BacklightError>)
        ensures
            unique_names(self@),
            r is Ok <==> has_name(self@, name@),
            match r {
                Ok(b) => b.name@ == name@ && self@.contains(b),
                Err(e) => e == BacklightError::NotFound,
            },
    {
        proof {
            use_type_invariant(&self);
        }
        let wanted = String::from_str(name);
        let mut devices = self.by_name;
        match position_of(&devices, &wanted) {
            Some(i) => Ok(devices.remove(i)),
            None => Err(BacklightError::NotFound),
        }
    }

    /// Takes out the device to use where none is asked for: the one named
    /// `default` where there is one, else the one whose name comes first by
    /// character code, whatever the order in which the devices were found;
    /// `NoBacklights` where no device was found.
    pub fn default_backlight(self) -> (r: Result<Backlight, BacklightError>)
        ensures
            unique_names(self@),
            r is Err <==> self@.len() == 0,
            match r {
                Ok(b) => is_default_choice(self@, b),
                Err(e) => e == BacklightError::NoBacklights,
            },
    {
        proof {
            use_type_invariant(&self);
        }
        let wanted = String::from_str("default");
        proof {
            reveal_strlit("default");
        }
        assert(wanted@ =~= default_name());
        let mut devices = self.by_name;
        match position_of(&devices, &wanted) {
            Some(i) => Ok(devices.remove(i)),
            None => if devices.len() > 0 {
                let m = least_name_position(&devices);
                Ok(devices.remove(m))
            } else {
                Err(BacklightError::NoBacklights)
            },
        }
    }
}

fn least_name_position(devices: &Vec<Backlight>) -> (m: usize)
    requires
        devices@.len() > 0,
    ensures
        m < devices@.len(),
        forall|i: int|
            0 <= i < devices@.len() ==> name_le(devices@[m as int].name@, (#[trigger] devices@[i]).name@),
{
    let mut m: usize = 0;
    let mut best = chars_of(devices[0].name.as_str());
    let mut j: usize = 1;
    proof {
        lemma_name_le_total(best@, best@);
    }
    while j < devices.len()
        invariant
            1 <= j <= devices@.len(),
            m < j,
            best@ == devices@[m as int].name@,
            forall|i: int| 0 <= i < j ==> name_le(best@, (#[trigger] devices@[i]).name@),
        decreases devices.len() - j,
    {
        let next = chars_of(devices[j].name.as_str());
        if !names_le(&best, &next) {
            proof {
                lemma_name_le_total(best@, next@);
                lemma_name_le_total(next@, next@);
                assert forall|i: int| 0 <= i < j + 1 implies name_le(next@, (#[trigger] devices@[i]).name@) by {
                    if i < j {
                        lemma_name_le_transitive(next@, best@, devices@[i].name@);
                    }
                }
            }
            m = j;
            best = next;
        }
        j = j + 1;
    }
    m
}

} // verus!
