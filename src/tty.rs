//! The identity of a USB serial device, and a device that is present now.

use vstd::prelude::*;
use vstd::std_specs::cmp::PartialEqSpec;

verus! {

/// The identity of a device: its manufacturer, model and serial number, each
/// of which the device may lack.
pub type TtyView = (Option<Seq<char>>, Option<Seq<char>>, Option<Seq<char>>);

/// A present device: its identity and the device node it occupies.
pub type PresentView = (TtyView, Seq<char>);

/// The text of an optional string.
pub open spec fn opt_view(o: Option<String>) -> Option<Seq<char>> {
    match o {
        Some(s) => Some(s@),
        None => None,
    }
}

/// Information inherent to a device, not including the node it occupies now.
#[derive(Debug)]
pub struct Tty {
    pub manufacturer: Option<String>,
    pub model: Option<String>,
    pub serial: Option<String>,
}

/// A device that is connected now: its identity and its device node.
#[derive(Debug)]
pub struct PresentTty {
    pub tty: Tty,
    pub device: String,
}

impl View for Tty {
    type V = TtyView;

    open spec fn view(&self) -> TtyView {
        (opt_view(self.manufacturer), opt_view(self.model), opt_view(self.serial))
    }
}

impl View for PresentTty {
    type V = PresentView;

    open spec fn view(&self) -> PresentView {
        (self.tty@, self.device@)
    }
}

fn same_field(a: &Option<String>, b: &Option<String>) -> (r: bool)
    ensures
        r == (opt_view(*a) == opt_view(*b)),
{
    match (a, b) {
        (Some(x), Some(y)) => *x == *y,
        (None, None) => true,
        _ => false,
    }
}

fn clone_field(a: &Option<String>) -> (r: Option<String>)
    ensures
        opt_view(r) == opt_view(*a),
{
    match a {
        Some(x) => Some(x.clone()),
        None => None,
    }
}

impl Tty {
    /// Whether the two identities agree on all three fields, an absent field
    /// agreeing only with an absent one.
    pub fn same_identity(&self, other: &Tty) -> (r: bool)
        ensures
            r == (self@ == other@),
    {
        same_field(&self.manufacturer, &other.manufacturer) && same_field(&self.model, &other.model)
            && same_field(&self.serial, &other.serial)
    }

    /// A copy of this identity.
    pub fn duplicate(&self) -> (r: Tty)
        ensures
            r@ == self@,
    {
        Tty {
            manufacturer: clone_field(&self.manufacturer),
            model: clone_field(&self.model),
            serial: clone_field(&self.serial),
        }
    }

    /// Whether all three fields are known.
    pub fn is_complete(&self) -> (r: bool)
        ensures
            r == (self@.0 is Some && self@.1 is Some && self@.2 is Some),
    {
        self.manufacturer.is_some() && self.model.is_some() && self.serial.is_some()
    }
}

impl PartialEq for Tty {
    fn eq(&self, other: &Tty) -> (r: bool) {
        self.same_identity(other)
    }
}

impl vstd::std_specs::cmp::PartialEqSpecImpl for Tty {
    open spec fn obeys_eq_spec() -> bool {
        true
    }

    open spec fn eq_spec(&self, other: &Tty) -> bool {
        self@ == other@
    }
}

impl Eq for Tty {
}

/// Equality of identities is reflexive and symmetric, and it holds exactly
/// when the manufacturer, the model and the serial number each agree (an
/// absent field agreeing only with an absent one).
pub proof fn lemma_identity_equality(a: Tty, b: Tty)
    ensures
        a.eq_spec(&a),
        a.eq_spec(&b) == b.eq_spec(&a),
        a.eq_spec(&b) <==> (opt_view(a.manufacturer) == opt_view(b.manufacturer) && opt_view(a.model)
            == opt_view(b.model) && opt_view(a.serial) == opt_view(b.serial)),
{
}

/// The text of an optional field for display: the field itself, or `None`
/// where it is absent.
pub fn pon(raw: &Option<String>) -> (r: String)
    ensures
        r@ == match *raw {
            Some(s) => s@,
            None => "None"@,
        },
{
    match raw {
        Some(s) => s.clone(),
        None => String::from_str("None"),
    }
}

} // verus!
