//! A DID document: the DID in its encoded form and its public-key records.
use vstd::prelude::*;
use vstd::string::StringExecFns;
use crate::public_key_item::{PublicKeyItem, PublicKeyView};

verus! {

/// The JSON-LD context of every document.
pub open spec fn did_context() -> Seq<char> {
    seq![
        'h', 't', 't', 'p', 's', ':', '/', '/', 'w', 'w', 'w', '.', 'w', '3', '.', 'o', 'r', 'g',
        '/', '2', '0', '1', '9', '/', 'd', 'i', 'd', '/', 'v', '1',
    ]
}

/// A document as a mathematical value.
pub struct DocumentView {
    pub context: Seq<char>,
    pub id: Seq<char>,
    pub public_key: Seq<PublicKeyView>,
}

/// The DID is held as its encoded text, never as the structured model.
#[derive(Clone, Debug)]
pub struct DecentralizedIdentifierDocument {
    context: String,
    id: String,
    public_key: Vec<PublicKeyItem>,
}

impl View for DecentralizedIdentifierDocument {
    type V = DocumentView;

    closed spec fn view(&self) -> DocumentView {
        DocumentView {
            context: self.context@,
            id: self.id@,
            public_key: self.public_key@.map_values(|k: PublicKeyItem| k@),
        }
    }
}

impl DecentralizedIdentifierDocument {
    /// A document for the DID text `id`, in the standard context, without keys.
    pub fn new(id: String) -> (r: Self)
        ensures
            r@ == (DocumentView { context: did_context(), id: id@, public_key: Seq::empty() }),
    {
        let context = String::from_str("https://www.w3.org/2019/did/v1");
        proof {
            reveal_strlit("https://www.w3.org/2019/did/v1");
            assert(context@ =~= did_context());
        }
        let r = DecentralizedIdentifierDocument { context, id, public_key: Vec::new() };
        proof {
            assert(r@.public_key =~= Seq::<PublicKeyView>::empty());
        }
        r
    }

    /// Adds a key record at the end.
    pub fn add_public_key_item(&mut self, public_key_item: PublicKeyItem)
        ensures
            final(self)@ == (DocumentView {
                public_key: old(self)@.public_key.push(public_key_item@),
                ..old(self)@
            }),
    {
        let ghost before = self@;
        self.public_key.push(public_key_item);
        proof {
            assert(self@.public_key =~= before.public_key.push(public_key_item@));
        }
    }

    pub fn context(&self) -> (r: &str)
        ensures
            r@ == self@.context,
    {
        self.context.as_str()
    }

    pub fn id(&self) -> (r: &str)
        ensures
            r@ == self@.id,
    {
        self.id.as_str()
    }

    pub fn public_key(&self) -> (r: &[PublicKeyItem])
        ensures
            r@.map_values(|k: PublicKeyItem| k@) == self@.public_key,
    {
        self.public_key.as_slice()
    }
}

} // verus!
