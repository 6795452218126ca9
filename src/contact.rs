//! The contact entries of a location.
use vstd::prelude::*;

verus! {

/// The kind of a contact entry.
#[derive(Debug, Clone, Copy, PartialEq, Eq, Structural)]
pub enum ContactType {
    PhoneNumber,
    Email,
    WebAddress,
}

impl ContactType {
    /// The key under which the display text of this kind is translated.
    pub fn translation_key(&self) -> (r: &'static str)
        ensures
            r@ == contact_type_key(*self),
    {
        match self {
            ContactType::PhoneNumber => "contact-type-phone-number",
            ContactType::Email => "contact-type-email",
            ContactType::WebAddress => "contact-type-web-address",
        }
    }
}

pub open spec fn contact_type_key(t: ContactType) -> Seq<char> {
    match t {
        ContactType::PhoneNumber => "contact-type-phone-number"@,
        ContactType::Email => "contact-type-email"@,
        ContactType::WebAddress => "contact-type-web-address"@,
    }
}

pub open spec fn contact_icon(t: ContactType) -> Seq<char> {
    match t {
        ContactType::Email => "fa-envelope"@,
        ContactType::PhoneNumber => "fa-phone"@,
        ContactType::WebAddress => "fa-link"@,
    }
}

/// The icon class shown beside a contact entry of kind `contact`.
pub fn get_contact_fontawesome_icon(contact: ContactType) -> (r: &'static str)
    ensures
        r@ == contact_icon(contact),
{
    match contact {
        ContactType::Email => "fa-envelope",
        ContactType::PhoneNumber => "fa-phone",
        ContactType::WebAddress => "fa-link",
    }
}

impl Default for ContactType {
    fn default() -> (r: ContactType)
        ensures
            r == ContactType::Email,
    {
        ContactType::Email
    }
}

/// One way to reach a location: its kind and its value (a number, an address).
#[derive(Clone, Debug)]
pub struct Contact {
    pub contact_type: ContactType,
    pub value: String,
}

impl View for Contact {
    type V = (ContactType, Seq<char>);

    open spec fn view(&self) -> (ContactType, Seq<char>) {
        (self.contact_type, self.value@)
    }
}

impl Contact {
    pub fn new(contact_type: ContactType, value: String) -> (r: Contact)
        ensures
            r@ == (contact_type, value@),
    {
        Contact { contact_type, value }
    }

    /// A copy of this entry.
    pub fn duplicate(&self) -> (r: Contact)
        ensures
            r@ == self@,
    {
        Contact { contact_type: self.contact_type, value: self.value.clone() }
    }
}

/// The ordered list of a location's contact entries.
#[derive(Clone, Debug)]
pub struct ContactMethods {
    methods: Vec<Contact>,
}

impl View for ContactMethods {
    type V = Seq<(ContactType, Seq<char>)>;

    closed spec fn view(&self) -> Seq<(ContactType, Seq<char>)> {
        self.methods@.map_values(|c: Contact| c@)
    }
}

impl ContactMethods {
    /// An empty list.
    pub fn new() -> (r: ContactMethods)
        ensures
            r@ == Seq::<(ContactType, Seq<char>)>::empty(),
    {
        let r = ContactMethods { methods: Vec::new() };
        assert(r@ =~= Seq::<(ContactType, Seq<char>)>::empty());
        r
    }

    /// The entries, in order.
    pub fn all_contact_methods(&self) -> (r: &Vec<Contact>)
        ensures
            r@.map_values(|c: Contact| c@) == self@,
    {
        &self.methods
    }

    /// Appends an entry.
    pub fn add_new_contact_method(&mut self, method: Contact)
        ensures
            final(self)@ == old(self)@.push(method@),
    {
        let ghost m = method@;
        self.methods.push(method);
        assert(self@ =~= old(self)@.push(m));
    }

    /// The number of entries.
    pub fn len(&self) -> (r: usize)
        ensures
            r == self@.len(),
    {
        self.methods.len()
    }

    /// A copy of this list.
    pub fn duplicate(&self) -> (r: ContactMethods)
        ensures
            r@ == self@,
    {
        let mut v: Vec<Contact> = Vec::new();
        let mut i: usize = 0;
        while i < self.methods.len()
            invariant
                i <= self.methods@.len(),
                v@.len() == i,
                forall|k: int| 0 <= k < i ==> v@[k]@ == self.methods@[k]@,
            decreases self.methods@.len() - i,
        {
            v.push(self.methods[i].duplicate());
            i = i + 1;
        }
        let r = ContactMethods { methods: v };
        assert(r@ =~= self@);
        r
    }

    /// Whether both lists hold the same entries in the same order.
    pub fn same_as(&self, other: &ContactMethods) -> (r: bool)
        ensures
            r == (self@ == other@),
    {
        if self.methods.len() != other.methods.len() {
            assert(self@.len() != other@.len());
            return false;
        }
        let mut i: usize = 0;
        while i < self.methods.len()
            invariant
                i <= self.methods@.len(),
                self.methods@.len() == other.methods@.len(),
                forall|k: int| 0 <= k < i ==> self@[k] == other@[k],
            decreases self.methods@.len() - i,
        {
            let a = &self.methods[i];
            let b = &other.methods[i];
            if a.contact_type != b.contact_type || a.value != b.value {
                assert(self@[i as int] != other@[i as int]);
                return false;
            }
            i = i + 1;
        }
        assert(self@ =~= other@);
        true
    }
}

impl Default for ContactMethods {
    fn default() -> (r: ContactMethods)
        ensures
            r@ == Seq::<(ContactType, Seq<char>)>::empty(),
    {
        ContactMethods::new()
    }
}

} // verus!
