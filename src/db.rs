use vstd::prelude::*;

verus! {

/// One bookmark: a directory path with an optional name.
pub struct ItemModel {
    pub name: Option<String>,
    pub path: String,
}

impl ItemModel {
    /// How a bookmark is shown: the name, a space and the path, or the path alone.
    pub open spec fn text(&self) -> Seq<char> {
        match self.name {
            Some(name) => name@ + seq![' '] + self.path@,
            None => self.path@,
        }
    }

    pub fn as_string(&self) -> (r: String)
        ensures
            r@ == self.text(),
    {
        match &self.name {
            Some(name) => {
                proof {
                    reveal_strlit(" ");
                }
                name.clone().concat(" ").concat(self.path.as_str())
            },
            None => self.path.clone(),
        }
    }
}

/// The stored bookmarks, in the order they were added.
pub struct Model {
    pub bookmarks: Vec<ItemModel>,
}

/// The file name of the bookmark store in the home directory.
pub open spec fn store_name() -> Seq<char> {
    seq!['.', 'd', 'i', 'r', 'b', 'k', 'm']
}

/// The store's path in `home`: one separator between them, none added where `home`
/// already ends in one.
pub open spec fn store_path(home: Seq<char>) -> Seq<char> {
    if home.len() > 0 && home.last() == '/' {
        home + store_name()
    } else {
        home + seq!['/'] + store_name()
    }
}

/// The bookmark store: where it lives, and what it holds.
pub struct Db {
    path: String,
    pub data: Model,
}

impl Db {
    pub closed spec fn path_spec(&self) -> Seq<char> {
        self.path@
    }

    /// The stored bookmarks.
    pub closed spec fn bookmarks(&self) -> Seq<ItemModel> {
        self.data.bookmarks@
    }

    /// An empty store kept in the home directory `home`.
    pub fn new(home: &str) -> (r: Db)
        requires
            home@.len() > 0,
        ensures
            r.path_spec() == store_path(home@),
            r.bookmarks().len() == 0,
    {
        proof {
            reveal_strlit("/");
            reveal_strlit(".dirbkm");
        }
        let n = home.unicode_len();
        let base = String::from_str(home);
        let path = if home.get_char(n - 1) == '/' {
            base.concat(".dirbkm")
        } else {
            base.concat("/").concat(".dirbkm")
        };
        assert(".dirbkm"@ =~= store_name());
        Db { path, data: Model { bookmarks: Vec::new() } }
    }

    /// Where the store lives.
    pub fn path(&self) -> (r: &str)
        ensures
            r@ == self.path_spec(),
    {
        self.path.as_str()
    }

    /// Appends a bookmark.
    pub fn add(&mut self, name: Option<String>, path: String)
        ensures
            final(self).path_spec() == old(self).path_spec(),
            final(self).bookmarks() == old(self).bookmarks().push(ItemModel { name, path }),
    {
        self.data.bookmarks.push(ItemModel { name, path });
    }
}

} // verus!
