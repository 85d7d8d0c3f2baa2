//! From names to platform values, and from the text of a key input to the
//! key input.
//!
//! The engine knows the grammar of a key input. What a key, a modifier, an
//! application or a command is called is the platform's business: a resolver
//! answers for it.

use crate::application::Application;
use crate::config::invalid_config_error::{result_view, InvalidConfigError, InvalidConfigErrorView};
use crate::config::values;
use crate::key::{Key, KeyInput, KeyInputView, Modifier, Modifiers};
use crate::laws::order_law;
use vstd::prelude::*;

verus! {

/// Resolves the names of a configuration to the values of a platform.
///
/// What a name resolves to depends on the name alone: the `*_spec` functions
/// say what it is, or with which error the name is refused, and the
/// `into_domain_*` functions compute it.
pub trait IsIntoDomain<A, K, M, C> {
    /// The application that `app` names.
    spec fn application_spec(&self, app: values::Application) -> Result<A, InvalidConfigErrorView>;

    /// The key that `name` names.
    spec fn key_spec(&self, name: Seq<char>) -> Result<K, InvalidConfigErrorView>;

    /// The modifier that `name` names.
    spec fn modifier_spec(&self, name: Seq<char>) -> Result<M, InvalidConfigErrorView>;

    /// The command that `execution` describes.
    spec fn execution_spec(&self, execution: values::Execution) -> Result<
        C,
        InvalidConfigErrorView,
    >;

    fn into_domain_application(&self, app: values::Application) -> (application: Result<
        Application<A>,
        InvalidConfigError,
    >)
        ensures
            result_view(application) == self.application_spec(app),
    ;

    fn into_domain_key(&self, key: values::Key) -> (resolved: Result<Key<K>, InvalidConfigError>)
        ensures
            result_view(resolved) == self.key_spec(key.0@),
    ;

    fn into_domain_modifier(&self, modifier: values::Modifier) -> (resolved: Result<
        Modifier<M>,
        InvalidConfigError,
    >)
        ensures
            result_view(resolved) == self.modifier_spec(modifier.0@),
    ;

    fn into_domain_execution(&self, execution: values::Execution) -> (resolved: Result<
        C,
        InvalidConfigError,
    >)
        ensures
            match resolved {
                Ok(command) => self.execution_spec(execution) == Ok::<
                    C,
                    InvalidConfigErrorView,
                >(command),
                Err(error) => self.execution_spec(execution) == Err::<
                    C,
                    InvalidConfigErrorView,
                >(error@),
            },
    ;
}

/// The tokens of `text`: what stands between its hyphens, in order. A text
/// without a hyphen is one token, and so is the empty text.
pub open spec fn tokens(text: Seq<char>) -> Seq<Seq<char>>
    decreases text.len(),
{
    if text.len() == 0 {
        seq![Seq::empty()]
    } else {
        let before = tokens(text.drop_last());
        if text.last() == '-' {
            before.push(Seq::empty())
        } else {
            before.update(before.len() - 1, before.last().push(text.last()))
        }
    }
}

/// The modifiers that `names` name, in the order of the names, or the error
/// of the first name that is refused.
pub open spec fn modifiers_spec<A, K, M, C, ID: IsIntoDomain<A, K, M, C>>(
    into_domain: &ID,
    names: Seq<Seq<char>>,
) -> Result<Seq<M>, InvalidConfigErrorView>
    decreases names.len(),
{
    if names.len() == 0 {
        Ok(Seq::empty())
    } else {
        match modifiers_spec(into_domain, names.drop_last()) {
            Err(error) => Err(error),
            Ok(modifiers) => match into_domain.modifier_spec(names.last()) {
                Err(error) => Err(error),
                Ok(modifier) => Ok(modifiers.push(modifier)),
            },
        }
    }
}

/// The key input that `text` describes. The last token of the text names the
/// key, the tokens before it name the modifiers.
///
/// A text whose last token is empty names no key. Otherwise the key name is
/// resolved first and the modifier names after it, from left to right; the
/// first name that is refused decides the error.
pub open spec fn key_input_spec<A, K, M, C, ID: IsIntoDomain<A, K, M, C>>(
    into_domain: &ID,
    text: Seq<char>,
) -> Result<KeyInputView<K, M>, InvalidConfigErrorView> {
    let key_name = tokens(text).last();
    let modifier_names = tokens(text).drop_last();
    if key_name.len() == 0 {
        Err(InvalidConfigErrorView::EmptyKey)
    } else {
        match into_domain.key_spec(key_name) {
            Err(error) => Err(error),
            Ok(key) => match modifiers_spec(into_domain, modifier_names) {
                Err(error) => Err(error),
                Ok(modifiers) => Ok(KeyInputView { key: key, modifiers: modifiers.to_set() }),
            },
        }
    }
}

/// The views of a list of texts.
pub open spec fn texts(strings: Seq<String>) -> Seq<Seq<char>> {
    strings.map_values(|s: String| s@)
}

/// Splits `text` at its hyphens.
pub fn split_at_hyphens(text: &str) -> (pieces: Vec<String>)
    ensures
        texts(pieces@) == tokens(text@),
{
    let length = text.unicode_len();
    let mut pieces: Vec<String> = Vec::new();
    let mut start: usize = 0;
    let mut i: usize = 0;
    assert(text@.take(0) =~= Seq::empty());
    assert(text@.subrange(0, 0) =~= Seq::empty());
    assert(texts(pieces@) =~= Seq::empty());
    while i < length
        invariant
            length == text@.len(),
            start <= i <= length,
            tokens(text@.take(i as int)) == texts(pieces@).push(
                text@.subrange(start as int, i as int),
            ),
        decreases length - i,
    {
        let ghost seen = text@.take(i as int);
        let ghost current = text@.subrange(start as int, i as int);
        let ghost done = texts(pieces@);
        proof {
            assert(text@.take(i + 1).drop_last() =~= seen);
            assert(text@.take(i + 1).last() == text@[i as int]);
        }
        if text.get_char(i) == '-' {
            pieces.push(text.substring_char(start, i).to_owned());
            start = i + 1;
            proof {
                assert(texts(pieces@) =~= done.push(current));
                assert(text@.subrange(start as int, i + 1) =~= Seq::empty());
            }
        } else {
            proof {
                assert(text@.subrange(start as int, i + 1) =~= current.push(text@[i as int]));
                assert(done.push(current).update(
                    done.push(current).len() - 1,
                    done.push(current).last().push(text@[i as int]),
                ) =~= done.push(text@.subrange(start as int, i + 1)));
            }
        }
        i += 1;
    }
    let ghost done = texts(pieces@);
    pieces.push(text.substring_char(start, length).to_owned());
    proof {
        assert(text@.take(length as int) =~= text@);
        assert(texts(pieces@) =~= done.push(text@.subrange(start as int, length as int)));
    }
    pieces
}

/// Reads the text of a key input: modifier names and a key name, joined by
/// hyphens, the key name last.
pub fn parse_key_input<A, K: PartialEq + Clone, M: Ord + Clone, C, ID: IsIntoDomain<A, K, M, C>>(
    into_domain: &ID,
    key_input: &values::KeyInput,
) -> (parsed: Result<KeyInput<K, M>, InvalidConfigError>)
    requires
        order_law::<M>(),
    ensures
        result_view(parsed) == key_input_spec(into_domain, key_input.0@),
{
    let mut names = split_at_hyphens(key_input.0.as_str());
    let ghost all = texts(names@);
    proof {
        lemma_tokens_are_not_empty(key_input.0@);
    }
    let key_name = names.pop().unwrap();
    proof {
        assert(key_name@ == all.last());
        assert(texts(names@) =~= all.drop_last());
    }
    if key_name.as_str().unicode_len() == 0 {
        return Err(InvalidConfigError::EmptyKey);
    }
    let key = match into_domain.into_domain_key(values::Key(key_name)) {
        Ok(key) => key,
        Err(error) => {
            return Err(error);
        },
    };
    let mut modifiers: Vec<Modifier<M>> = Vec::new();
    let mut i: usize = 0;
    assert(texts(names@).take(0) =~= Seq::empty());
    assert(crate::key::raw_values(modifiers@) =~= Seq::empty());
    while i < names.len()
        invariant
            i <= names.len(),
            texts(names@) == tokens(key_input.0@).drop_last(),
            tokens(key_input.0@).last().len() != 0,
            into_domain.key_spec(tokens(key_input.0@).last()) == Ok::<K, InvalidConfigErrorView>(
                key@,
            ),
            modifiers_spec(into_domain, texts(names@).take(i as int)) == Ok::<
                Seq<M>,
                InvalidConfigErrorView,
            >(crate::key::raw_values(modifiers@)),
        decreases names.len() - i,
    {
        let ghost resolved = crate::key::raw_values(modifiers@);
        proof {
            assert(texts(names@).take(i + 1).drop_last() =~= texts(names@).take(i as int));
            assert(texts(names@).take(i + 1).last() == names@[i as int]@);
        }
        match into_domain.into_domain_modifier(values::Modifier(names[i].clone())) {
            Ok(modifier) => {
                modifiers.push(modifier);
                assert(crate::key::raw_values(modifiers@) =~= resolved.push(modifier@));
            },
            Err(error) => {
                proof {
                    assert(into_domain.modifier_spec(names@[i as int]@) == Err::<
                        M,
                        InvalidConfigErrorView,
                    >(error@));
                    assert(modifiers_spec(into_domain, texts(names@).take(i + 1)) == Err::<
                        Seq<M>,
                        InvalidConfigErrorView,
                    >(error@));
                    lemma_modifiers_fail_from_first_failure(
                        into_domain,
                        texts(names@),
                        i + 1,
                    );
                }
                return Err(error);
            },
        }
        i += 1;
    }
    assert(texts(names@).take(i as int) =~= texts(names@));
    Ok(KeyInput::new(key, Modifiers::new(modifiers)))
}

/// The tokens put together again, with a hyphen between each two.
pub open spec fn joined(pieces: Seq<Seq<char>>) -> Seq<char>
    decreases pieces.len(),
{
    if pieces.len() == 0 {
        Seq::empty()
    } else if pieces.len() == 1 {
        pieces[0]
    } else {
        joined(pieces.drop_last()) + seq!['-'] + pieces.last()
    }
}

/// The tokens of a text are the text taken apart at its hyphens: no token
/// holds a hyphen, and joined with hyphens the tokens are the text again.
pub proof fn lemma_tokens_take_the_text_apart(text: Seq<char>)
    ensures
        forall|i: int| 0 <= i < tokens(text).len() ==> !(#[trigger] tokens(text)[i]).contains('-'),
        joined(tokens(text)) == text,
    decreases text.len(),
{
    lemma_tokens_are_not_empty(text);
    if text.len() == 0 {
        assert(joined(tokens(text)) =~= text);
        assert forall|i: int| 0 <= i < tokens(text).len() implies !(#[trigger] tokens(
            text,
        )[i]).contains('-') by {
            assert(tokens(text)[i] =~= Seq::<char>::empty());
        }
    } else {
        let before = tokens(text.drop_last());
        lemma_tokens_take_the_text_apart(text.drop_last());
        lemma_tokens_are_not_empty(text.drop_last());
        let last = text.last();
        if last == '-' {
            let all = before.push(Seq::empty());
            assert(all.drop_last() =~= before);
            assert(joined(all) =~= text.drop_last() + seq!['-']);
            assert(text.drop_last() + seq!['-'] =~= text);
            assert forall|i: int| 0 <= i < all.len() implies !(#[trigger] all[i]).contains('-') by {
                if i < before.len() {
                    assert(all[i] == before[i]);
                } else {
                    assert(all[i] =~= Seq::<char>::empty());
                }
            }
        } else {
            let grown = before.last().push(last);
            let all = before.update(before.len() - 1, grown);
            if before.len() == 1 {
                assert(joined(before) == before[0]);
                assert(joined(all) == grown);
                assert(grown =~= text);
            } else {
                assert(all.drop_last() =~= before.drop_last());
                assert(joined(all) =~= joined(before.drop_last()) + seq!['-'] + grown);
                assert(joined(before) == joined(before.drop_last()) + seq!['-'] + before.last());
                assert(joined(all) =~= joined(before).push(last));
                assert(text.drop_last().push(last) =~= text);
            }
            assert forall|i: int| 0 <= i < all.len() implies !(#[trigger] all[i]).contains('-') by {
                if i < before.len() - 1 {
                    assert(all[i] == before[i]);
                } else {
                    assert(!before[i].contains('-'));
                    if grown.contains('-') {
                        let k = choose|k: int| 0 <= k < grown.len() && grown[k] == '-';
                        assert(before[i][k] == '-');
                    }
                }
            }
        }
    }
}

/// There is always at least one token.
pub proof fn lemma_tokens_are_not_empty(text: Seq<char>)
    ensures
        tokens(text).len() >= 1,
    decreases text.len(),
{
    if text.len() > 0 {
        lemma_tokens_are_not_empty(text.drop_last());
    }
}

/// Once the names up to `n` are refused, so are all the names.
pub(crate) proof fn lemma_modifiers_fail_from_first_failure<A, K, M, C, ID: IsIntoDomain<A, K, M, C>>(
    into_domain: &ID,
    names: Seq<Seq<char>>,
    n: int,
)
    requires
        0 <= n <= names.len(),
        modifiers_spec(into_domain, names.take(n)) is Err,
    ensures
        modifiers_spec(into_domain, names) == modifiers_spec(into_domain, names.take(n)),
    decreases names.len() - n,
{
    if n < names.len() {
        assert(names.take(n + 1).drop_last() =~= names.take(n));
        lemma_modifiers_fail_from_first_failure(into_domain, names, n + 1);
    } else {
        assert(names.take(n) =~= names);
    }
}

} // verus!
