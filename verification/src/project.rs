//! The project file's top level: which of its entries is which part of
//! the project, and what is owed before a project is whole.
//!
//! A project file holds both halves of a project: the entities, and
//! the animation over them, plus the folders bookmarked alongside.
//! Neither half is much use alone, so both must be there; a file saved
//! before bookmarks existed has none, and loads with none.

use vstd::prelude::*;

verus! {

/// Which part of the project an entry of the file holds.
#[derive(Clone, Copy, Debug, PartialEq, Eq, Structural)]
pub enum Part {
    /// The entities, under the key `world`.
    World,
    /// The animation, under the key `scene`.
    Scene,
    /// The bookmarked folders, under the key `bookmarks`.
    Bookmarks,
    /// Anything else, which is skipped.
    Other,
}

/// The part an entry's key names.
pub open spec fn part_named(key: Seq<char>) -> Part {
    if key == seq!['w', 'o', 'r', 'l', 'd'] {
        Part::World
    } else if key == seq!['s', 'c', 'e', 'n', 'e'] {
        Part::Scene
    } else if key == seq!['b', 'o', 'o', 'k', 'm', 'a', 'r', 'k', 's'] {
        Part::Bookmarks
    } else {
        Part::Other
    }
}

/// The part an entry's key names.
pub fn part_of(key: &String) -> (r: Part)
    ensures
        r == part_named(key@),
{
    proof {
        reveal_strlit("world");
        reveal_strlit("scene");
        reveal_strlit("bookmarks");
    }
    let world = String::from_str("world");
    let scene = String::from_str("scene");
    let bookmarks = String::from_str("bookmarks");
    assert(world@ =~= seq!['w', 'o', 'r', 'l', 'd']);
    assert(scene@ =~= seq!['s', 'c', 'e', 'n', 'e']);
    assert(bookmarks@ =~= seq!['b', 'o', 'o', 'k', 'm', 'a', 'r', 'k', 's']);
    if *key == world {
        Part::World
    } else if *key == scene {
        Part::Scene
    } else if *key == bookmarks {
        Part::Bookmarks
    } else {
        Part::Other
    }
}

/// A part a project cannot do without, missing from the file.
#[derive(Clone, Copy, Debug, PartialEq, Eq, Structural)]
pub enum Missing {
    World,
    Scene,
}

/// The project, from the parts read out of its file: the entities and
/// the animation are owed, the entities reported first; bookmarks
/// absent are none.
pub fn assemble<W, S>(world: Option<W>, scene: Option<S>, bookmarks: Option<Vec<Vec<String>>>) -> (r:
    Result<(W, S, Vec<Vec<String>>), Missing>)
    ensures
        world is None ==> r == Err::<(W, S, Vec<Vec<String>>), Missing>(Missing::World),
        world is Some && scene is None ==> r == Err::<(W, S, Vec<Vec<String>>), Missing>(
            Missing::Scene,
        ),
        world is Some && scene is Some ==> r is Ok && r->Ok_0.0 == world.unwrap() && r->Ok_0.1
            == scene.unwrap() && r->Ok_0.2@ == match bookmarks {
            Some(b) => b@,
            None => Seq::<Vec<String>>::empty(),
        },
{
    let Some(world) = world else {
        return Err(Missing::World);
    };
    let Some(scene) = scene else {
        return Err(Missing::Scene);
    };
    let bookmarks = match bookmarks {
        Some(b) => b,
        None => Vec::new(),
    };
    Ok((world, scene, bookmarks))
}

} // verus!
