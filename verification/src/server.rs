//! What the server keeps between requests: the open documents.
use vstd::prelude::*;
use crate::document::{edited, findings, syntax_findings, DocumentState, Edit, TextChange,
    TextDocument};
use crate::hints::show_symbol_info_command;
use crate::order::{byte_key, key_le, key_not_after, key_of};
use crate::syntax::{parse_failure, tree_rows};
use crate::text::same_text;
use vstd::utf8::encode_utf8;

verus! {

/// What a client may hand over when it starts the server: the files of compiled packages, and the
/// directory in which fetched dependencies are kept.
pub struct InitializationOptions {
    pub registry_artifacts: Vec<String>,
    pub git_cache_root: Option<String>,
}

impl Default for InitializationOptions {
    fn default() -> (options: InitializationOptions)
        ensures
            options.registry_artifacts@.len() == 0,
            options.git_cache_root is None,
    {
        InitializationOptions { registry_artifacts: Vec::new(), git_cache_root: None }
    }
}

/// The open documents, in the order of their addresses.
pub struct OpenDocuments {
    documents: Vec<TextDocument>,
}

/// The models of a list of documents.
pub open spec fn document_views(documents: Seq<TextDocument>) -> Seq<DocumentState> {
    Seq::new(documents.len(), |i: int| documents[i]@)
}

impl View for OpenDocuments {
    type V = Seq<DocumentState>;

    closed spec fn view(&self) -> Seq<DocumentState> {
        document_views(self.documents@)
    }
}

/// The first of the documents from `at` on with the given address.
pub open spec fn document_at(documents: Seq<DocumentState>, uri: Seq<char>, at: int) -> Option<int>
    decreases documents.len() - at,
{
    if at >= documents.len() {
        None
    } else if documents[at].uri == uri {
        Some(at)
    } else {
        document_at(documents, uri, at + 1)
    }
}

/// The place of an address among the documents from `at` on: before the first that comes behind it.
pub open spec fn place_for(documents: Seq<DocumentState>, uri: Seq<char>, at: int) -> int
    decreases documents.len() - at,
{
    if at >= documents.len() || !key_le(
        byte_key(encode_utf8(documents[at].uri)),
        byte_key(encode_utf8(uri)),
    ) {
        at
    } else {
        place_for(documents, uri, at + 1)
    }
}

/// A list of documents with one more, which replaces the one with its address.
pub open spec fn with_document(documents: Seq<DocumentState>, document: DocumentState) -> Seq<
    DocumentState,
> {
    match document_at(documents, document.uri, 0) {
        Some(at) => documents.update(at, document),
        None => documents.insert(place_for(documents, document.uri, 0), document),
    }
}

/// A list of documents without the one with the given address.
pub open spec fn without_document(documents: Seq<DocumentState>, uri: Seq<char>) -> Seq<
    DocumentState,
> {
    match document_at(documents, uri, 0) {
        Some(at) => documents.remove(at),
        None => documents,
    }
}

/// The document that is opened with a text.
pub open spec fn opened(uri: Seq<char>, version: i32, text: Seq<char>) -> Option<DocumentState> {
    match tree_rows(text) {
        Some(rows) => Some(
            DocumentState {
                uri,
                version,
                text,
                rows,
                findings: syntax_findings(encode_utf8(text), rows),
            },
        ),
        None => None,
    }
}

/// A document behind a list of changes, and what is reported where they cannot be made.
pub open spec fn changed(document: DocumentState, version: i32, changes: Seq<TextChange>) -> (
    DocumentState,
    Option<Seq<char>>,
) {
    match edited(document.text, changes) {
        Edit::Refused { text, message } => (DocumentState { text, ..document }, Some(message)),
        Edit::Applied { text } => match opened(document.uri, version, text) {
            Some(next) => (next, None),
            None => (DocumentState { text, ..document }, Some(parse_failure(text))),
        },
        Edit::Reversed => (document, None),
    }
}

impl OpenDocuments {
    /// The line tables of the documents belong to their texts.
    pub closed spec fn well_formed(self) -> bool {
        forall|i: int| 0 <= i < self.documents@.len() ==> (#[trigger] self.documents@[i]).well_formed()
    }

    /// No document is open.
    pub fn new() -> (documents: OpenDocuments)
        ensures
            documents.well_formed(),
            documents@ == Seq::<DocumentState>::empty(),
    {
        let documents = OpenDocuments { documents: Vec::new() };
        assert(documents@ =~= Seq::<DocumentState>::empty());
        documents
    }

    /// How many documents are open.
    pub fn len(&self) -> (count: usize)
        ensures
            count == self@.len(),
    {
        self.documents.len()
    }

    /// The document at a place in the list.
    pub fn get(&self, at: usize) -> (document: &TextDocument)
        requires
            at < self@.len(),
            self.well_formed(),
        ensures
            document@ == self@[at as int],
            document.well_formed(),
    {
        &self.documents[at]
    }

    /// The place of the document with the given address.
    fn position(&self, uri: &str) -> (found: Option<usize>)
        ensures
            match found {
                Some(at) => document_at(self@, uri@, 0) == Some(at as int) && at < self@.len(),
                None => document_at(self@, uri@, 0) is None,
            },
    {
        let ghost all = self@;
        let mut i: usize = 0;
        while i < self.documents.len()
            invariant
                i <= self.documents.len(),
                all == document_views(self.documents@),
                document_at(all, uri@, 0) == document_at(all, uri@, i as int),
            decreases self.documents.len() - i,
        {
            assert(all[i as int] == self.documents@[i as int]@);
            if same_text(self.documents[i].uri(), uri) {
                return Some(i);
            }
            i = i + 1;
        }
        None
    }

    /// The document with the given address.
    pub fn find(&self, uri: &str) -> (found: Option<&TextDocument>)
        requires
            self.well_formed(),
        ensures
            match (found, document_at(self@, uri@, 0)) {
                (Some(document), Some(at)) => document@ == self@[at] && document.well_formed(),
                (None, None) => true,
                _ => false,
            },
    {
        match self.position(uri) {
            Some(at) => Some(&self.documents[at]),
            None => None,
        }
    }

    /// Opens a document; one that is open with the same address is replaced.
    pub fn open(&mut self, uri: String, version: i32, text: String) -> (result: Result<(), String>)
        requires
            old(self).well_formed(),
        ensures
            final(self).well_formed(),
            match opened(uri@, version, text@) {
                Some(document) => result is Ok && final(self)@ == with_document(
                    old(self)@,
                    document,
                ),
                None => {
                    &&& result matches Err(message) && message@ == parse_failure(text@)
                    &&& final(self)@ == old(self)@
                },
            },
    {
        let ghost before = self@;
        let key = key_of(&uri);
        let found = self.position(&uri);
        let document = match TextDocument::new(uri, version, text) {
            Ok(document) => document,
            Err(message) => return Err(message),
        };
        match found {
            Some(at) => {
                self.documents.set(at, document);
                assert(self@ =~= before.update(at as int, document@));
            },
            None => {
                let mut at: usize = 0;
                while at < self.documents.len() && key_not_after(
                    &key_of(self.documents[at].uri()),
                    &key,
                )
                    invariant
                        at <= self.documents.len(),
                        *self == *old(self),
                        before == document_views(self.documents@),
                        key@ == byte_key(encode_utf8(document@.uri)),
                        place_for(before, document@.uri, 0) == place_for(
                            before,
                            document@.uri,
                            at as int,
                        ),
                    decreases self.documents.len() - at,
                {
                    assert(before[at as int] == self.documents@[at as int]@);
                    at = at + 1;
                }
                proof {
                    if at < self.documents@.len() {
                        assert(before[at as int] == self.documents@[at as int]@);
                    }
                }
                self.documents.insert(at, document);
                assert(self@ =~= before.insert(at as int, document@));
            },
        }
        Ok(())
    }

    /// Whether the ranges of `changes` can be applied in their turn to the document with the given
    /// address: none of them ends before it starts.
    pub fn accepts(&self, uri: &str, changes: &Vec<TextChange>) -> (result: bool)
        ensures
            result == match document_at(self@, uri@, 0) {
                Some(at) => !(edited(self@[at].text, changes@) is Reversed),
                None => true,
            },
    {
        match self.position(uri) {
            Some(at) => {
                assert(self@[at as int] == self.documents@[at as int]@);
                self.documents[at].accepts(changes)
            },
            None => true,
        }
    }

    /// Changes the document with the given address. `None` where no such document is open.
    pub fn change(&mut self, uri: &str, version: i32, changes: Vec<TextChange>) -> (result: Option<
        Result<(), String>,
    >)
        requires
            old(self).well_formed(),
            match document_at(old(self)@, uri@, 0) {
                Some(at) => !(edited(old(self)@[at].text, changes@) is Reversed),
                None => true,
            },
        ensures
            final(self).well_formed(),
            match document_at(old(self)@, uri@, 0) {
                None => result is None && final(self)@ == old(self)@,
                Some(at) => {
                    let (document, failure) = changed(old(self)@[at], version, changes@);
                    &&& final(self)@ == old(self)@.update(at, document)
                    &&& match failure {
                        None => result matches Some(Ok(_)),
                        Some(expected) => result matches Some(Err(message)) && message@ == expected,
                    }
                },
            },
    {
        let ghost before = self@;
        match self.position(uri) {
            None => None,
            Some(at) => {
                assert(before[at as int] == self.documents@[at as int]@);
                let result = self.documents[at].apply_changes(version, changes);
                proof {
                    let (document, failure) = changed(before[at as int], version, changes@);
                    assert(self@[at as int] == document);
                    assert(self@ =~= before.update(at as int, document));
                }
                Some(result)
            },
        }
    }

    /// Closes the document with the given address.
    pub fn close(&mut self, uri: &str)
        requires
            old(self).well_formed(),
        ensures
            final(self).well_formed(),
            final(self)@ == without_document(old(self)@, uri@),
    {
        let ghost before = self@;
        if let Some(at) = self.position(uri) {
            self.documents.remove(at);
            assert(self@ =~= before.remove(at as int));
        }
    }
}

/// The message that a command shows: only the command of the code lenses shows one, its first
/// argument.
pub fn command_message(command: &str, argument: Option<String>) -> (message: Option<String>)
    ensures
        message == (if command@ == "miden-lsp.showSymbolInfo"@ {
            argument
        } else {
            None
        }),
{
    if same_text(command, show_symbol_info_command()) {
        argument
    } else {
        None
    }
}

/// Whether no two documents have the same address.
pub open spec fn addresses_differ(documents: Seq<DocumentState>) -> bool {
    forall|i: int, j: int|
        0 <= i < j < documents.len() ==> (#[trigger] documents[i]).uri != (
        #[trigger] documents[j]).uri
}

proof fn lemma_document_at(documents: Seq<DocumentState>, uri: Seq<char>, at: int)
    requires
        0 <= at,
    ensures
        match document_at(documents, uri, at) {
            Some(found) => at <= found < documents.len() && documents[found].uri == uri,
            None => forall|i: int| at <= i < documents.len() ==> (#[trigger] documents[i]).uri
                != uri,
        },
    decreases documents.len() - at,
{
    if at < documents.len() && documents[at].uri != uri {
        lemma_document_at(documents, uri, at + 1);
    }
}

proof fn lemma_place_for(documents: Seq<DocumentState>, uri: Seq<char>, at: int)
    requires
        0 <= at <= documents.len(),
    ensures
        at <= place_for(documents, uri, at) <= documents.len(),
    decreases documents.len() - at,
{
    if at < documents.len() && key_le(
        byte_key(encode_utf8(documents[at].uri)),
        byte_key(encode_utf8(uri)),
    ) {
        lemma_place_for(documents, uri, at + 1);
    }
}

/// A document that is opened is found again under its address, and no other address is lost or
/// listed twice; a document that is closed is not found any more.
pub proof fn law_open_and_close(documents: Seq<DocumentState>, document: DocumentState)
    requires
        addresses_differ(documents),
    ensures
        addresses_differ(with_document(documents, document)),
        exists|i: int|
            0 <= i < with_document(documents, document).len() && #[trigger] with_document(
                documents,
                document,
            )[i] == document,
        addresses_differ(without_document(documents, document.uri)),
        document_at(without_document(documents, document.uri), document.uri, 0) is None,
{
    lemma_document_at(documents, document.uri, 0);
    lemma_place_for(documents, document.uri, 0);
    let more = with_document(documents, document);
    let fewer = without_document(documents, document.uri);
    match document_at(documents, document.uri, 0) {
        Some(at) => {
            assert(more[at] == document);
            assert forall|i: int| 0 <= i < fewer.len() implies (#[trigger] fewer[i]).uri
                != document.uri by {
                if i < at {
                    assert(fewer[i] == documents[i]);
                } else {
                    assert(fewer[i] == documents[i + 1]);
                }
            }
            assert forall|i: int, j: int| 0 <= i < j < fewer.len() implies (#[trigger] fewer[i]).uri
                != (#[trigger] fewer[j]).uri by {
                let a = if i < at {
                    i
                } else {
                    i + 1
                };
                let b = if j < at {
                    j
                } else {
                    j + 1
                };
                assert(documents[a].uri != documents[b].uri);
            }
        },
        None => {
            let place = place_for(documents, document.uri, 0);
            assert(more[place] == document);
            assert forall|i: int, j: int| 0 <= i < j < more.len() implies (#[trigger] more[i]).uri
                != (#[trigger] more[j]).uri by {
                if i != place && j != place {
                    let a = if i < place {
                        i
                    } else {
                        i - 1
                    };
                    let b = if j < place {
                        j
                    } else {
                        j - 1
                    };
                    assert(documents[a].uri != documents[b].uri);
                } else if i == place {
                    assert(documents[j - 1].uri != document.uri);
                } else {
                    assert(documents[i].uri != document.uri);
                }
            }
        },
    }
    lemma_document_at(fewer, document.uri, 0);
}

} // verus!
