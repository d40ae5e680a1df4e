//! The package model: a name, the ordered list of declared dependency names,
//! and the flag that admits the package to publication.

use vstd::prelude::*;

verus! {

/// A unit of publishable software, identified by its name and carrying the
/// ordered sequence of the names of the packages it depends on.
///
/// Dependencies are referenced by name only; whether a name contributes a
/// dependency edge is decided against the in-scope package set at resolution
/// time. `publish` records whether the package is admitted to publication at
/// all: packages with `publish == false` are filtered out before resolution.
#[derive(Debug, Clone, PartialEq)]
pub struct Package {
    pub name: String,
    pub dependencies: Vec<String>,
    pub publish: bool,
}

/// The mathematical image of a [`Package`]: its name and dependency names as
/// sequences of characters.
#[verifier::ext_equal]
pub struct PackageView {
    pub name: Seq<char>,
    pub dependencies: Seq<Seq<char>>,
    pub publish: bool,
}

impl View for Package {
    type V = PackageView;

    open spec fn view(&self) -> PackageView {
        PackageView {
            name: self.name@,
            dependencies: self.dependencies.deep_view(),
            publish: self.publish,
        }
    }
}

impl DeepView for Package {
    type V = PackageView;

    open spec fn deep_view(&self) -> PackageView {
        self.view()
    }
}

impl Package {
    /// Builds a package from its name, its declared dependency names in
    /// declaration order, and its publication flag.
    pub fn new(name: String, dependencies: Vec<String>, publish: bool) -> (r: Package)
        ensures
            r@.name == name@,
            r@.dependencies == dependencies.deep_view(),
            r@.publish == publish,
    {
        Package { name, dependencies, publish }
    }

    /// An exact copy: the copy has the same name, the same dependency names
    /// in the same order, and the same publication flag. Verified code uses
    /// this in place of the derived `Clone`, whose behaviour the verifier
    /// does not know.
    pub fn duplicate(&self) -> (r: Package)
        ensures
            r@ == self@,
    {
        let mut dependencies: Vec<String> = Vec::new();
        let mut i: usize = 0;
        while i < self.dependencies.len()
            invariant
                i <= self.dependencies.len(),
                dependencies@ == self.dependencies@.take(i as int),
            decreases self.dependencies.len() - i,
        {
            dependencies.push(self.dependencies[i].clone());
            proof {
                assert(dependencies@ =~= self.dependencies@.take(i as int + 1));
            }
            i = i + 1;
        }
        proof {
            assert(dependencies@ =~= self.dependencies@);
        }
        let r = Package { name: self.name.clone(), dependencies, publish: self.publish };
        proof {
            assert(r@ =~= self@);
        }
        r
    }
}

/// The packages of `pkgs` admitted to publication, in their given order.
pub open spec fn publishable_view(pkgs: Seq<PackageView>) -> Seq<PackageView> {
    pkgs.filter(|p: PackageView| p.publish)
}

/// Filters a package set down to the packages admitted to publication,
/// preserving their order: the resolver works on the filtered set only.
pub fn publishable_packages(packages: &Vec<Package>) -> (r: Vec<Package>)
    ensures
        r.deep_view() == publishable_view(packages.deep_view()),
{
    let ghost pv = packages.deep_view();
    let mut r: Vec<Package> = Vec::new();
    let mut i: usize = 0;
    proof {
        reveal(Seq::filter);
        assert(r.deep_view() =~= Seq::<PackageView>::empty());
        assert(pv.take(0) =~= Seq::<PackageView>::empty());
        assert(r.deep_view() == publishable_view(pv.take(0)));
    }
    while i < packages.len()
        invariant
            pv == packages.deep_view(),
            pv.len() == packages@.len(),
            i <= packages@.len(),
            r.deep_view() == publishable_view(pv.take(i as int)),
        decreases packages@.len() - i,
    {
        let ghost pre = r.deep_view();
        proof {
            assert(packages.deep_view()[i as int] == packages@[i as int]@);
        }
        if packages[i].publish {
            r.push(packages[i].duplicate());
            proof {
                assert(r.deep_view() =~= pre.push(pv[i as int]));
            }
        }
        proof {
            reveal(Seq::filter);
            assert(pv.take(i as int + 1).drop_last() =~= pv.take(i as int));
            assert(pv.take(i as int + 1).last() == pv[i as int]);
        }
        i = i + 1;
    }
    proof {
        assert(pv.take(packages@.len() as int) =~= pv);
    }
    r
}

} // verus!
