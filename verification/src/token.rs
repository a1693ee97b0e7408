//! The pieces of a trigger: modifiers, keys and the flags a key carries.

use vstd::prelude::*;

verus! {

/// The flags of a key; `Neither` is the empty set. `Send` lets the key press pass on to other consumers,
/// `OnRelease` fires the binding when the key is released; `Both` holds the two.
#[derive(Clone, Copy, Debug, PartialEq, Eq, Structural)]
pub enum KeyAttribute {
    Neither,
    Send,
    OnRelease,
    Both,
}

impl KeyAttribute {
    /// Whether the `Send` flag is set.
    pub open spec fn send(self) -> bool {
        self is Send || self is Both
    }

    /// Whether the `OnRelease` flag is set.
    pub open spec fn on_release(self) -> bool {
        self is OnRelease || self is Both
    }

    /// The flag set with exactly the given flags.
    pub open spec fn of(send: bool, on_release: bool) -> KeyAttribute {
        if send {
            if on_release {
                KeyAttribute::Both
            } else {
                KeyAttribute::Send
            }
        } else {
            if on_release {
                KeyAttribute::OnRelease
            } else {
                KeyAttribute::Neither
            }
        }
    }

    /// Whether the `Send` flag is set.
    pub fn has_send(self) -> (r: bool)
        ensures
            r == self.send(),
    {
        match self {
            KeyAttribute::Send | KeyAttribute::Both => true,
            _ => false,
        }
    }

    /// Whether the `OnRelease` flag is set.
    pub fn has_on_release(self) -> (r: bool)
        ensures
            r == self.on_release(),
    {
        match self {
            KeyAttribute::OnRelease | KeyAttribute::Both => true,
            _ => false,
        }
    }

    /// The union of two flag sets.
    pub fn union(self, other: KeyAttribute) -> (r: KeyAttribute)
        ensures
            r == KeyAttribute::of(self.send() || other.send(), self.on_release() || other.on_release()),
    {
        let send = self.has_send() || other.has_send();
        let on_release = self.has_on_release() || other.has_on_release();
        if send {
            if on_release {
                KeyAttribute::Both
            } else {
                KeyAttribute::Send
            }
        } else {
            if on_release {
                KeyAttribute::OnRelease
            } else {
                KeyAttribute::Neither
            }
        }
    }
}

/// A modifier, named by its text as written; nothing is normalised.
#[derive(Debug, PartialEq, Eq)]
pub struct Modifier(pub String);

impl View for Modifier {
    type V = Seq<char>;

    open spec fn view(&self) -> Seq<char> {
        self.0@
    }
}

impl DeepView for Modifier {
    type V = Seq<char>;

    open spec fn deep_view(&self) -> Seq<char> {
        self.0@
    }
}

impl Clone for Modifier {
    fn clone(&self) -> (r: Self)
        ensures
            r == *self,
    {
        Modifier(self.0.clone())
    }
}

/// What a key stands for in contracts.
pub struct KeyView {
    pub key: Seq<char>,
    pub attribute: KeyAttribute,
}

/// A key with its flags.
#[derive(Debug, PartialEq, Eq)]
pub struct Key {
    pub key: String,
    pub attribute: KeyAttribute,
}

impl View for Key {
    type V = KeyView;

    open spec fn view(&self) -> KeyView {
        KeyView { key: self.key@, attribute: self.attribute }
    }
}

impl DeepView for Key {
    type V = KeyView;

    open spec fn deep_view(&self) -> KeyView {
        self@
    }
}

impl Clone for Key {
    fn clone(&self) -> (r: Self)
        ensures
            r == *self,
    {
        Key { key: self.key.clone(), attribute: self.attribute }
    }
}

} // verus!
