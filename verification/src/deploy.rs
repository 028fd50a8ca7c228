//! `ml_deploy`: deploys a model version under a name.

use vstd::prelude::*;
use crate::model::registry;
use crate::model::registry::{Deployment, ModelRegistry, RegistryView};
use crate::table::take_turn;
use crate::text;
use crate::text::is_empty_text;

verus! {

/// Whether the row was handed out.
pub struct DInitData {
    pub done: bool,
}

impl DInitData {
    pub fn init() -> (r: Self)
        ensures
            !r.done,
    {
        DInitData { done: false }
    }

    /// Tells whether the row is still to be handed out, and notes that it is.
    pub fn take(&mut self) -> (first: bool)
        ensures
            first == !old(self).done,
            final(self).done,
    {
        take_turn(&mut self.done)
    }
}

/// The row of a deployment.
#[derive(Debug, PartialEq, Eq)]
pub struct DBindData {
    pub model_name: String,
    pub model_key: String,
    pub algorithm: String,
    pub strategy: String,
    pub success: bool,
    pub error_msg: String,
}

/// The row of a deployment, as a mathematical value.
pub struct DeployRow {
    pub model_name: Seq<char>,
    pub model_key: Seq<char>,
    pub algorithm: Seq<char>,
    pub strategy: Seq<char>,
    pub success: bool,
    pub error_msg: Seq<char>,
}

impl View for DBindData {
    type V = DeployRow;

    open spec fn view(&self) -> DeployRow {
        DeployRow {
            model_name: self.model_name@,
            model_key: self.model_key@,
            algorithm: self.algorithm@,
            strategy: self.strategy@,
            success: self.success,
            error_msg: self.error_msg@,
        }
    }
}

impl DBindData {
    /// The error column: empty where nothing went wrong.
    pub fn error(&self) -> (r: Option<&String>)
        ensures
            match r {
                Some(e) => *e == self.error_msg && self.error_msg@.len() > 0,
                None => self.error_msg@.len() == 0,
            },
    {
        if is_empty_text(self.error_msg.as_str()) {
            None
        } else {
            Some(&self.error_msg)
        }
    }
}

/// The row that tells what deploying came to.
pub open spec fn deploy_row<M>(
    s: RegistryView<M>,
    model_name: Seq<char>,
    strategy: Seq<char>,
    came: Result<Deployment, String>,
) -> DeployRow {
    match came {
        Ok(d) => DeployRow {
            model_name,
            model_key: d.model_key@,
            algorithm: registry::algorithm_name(s, d.model_key@),
            strategy,
            success: true,
            error_msg: Seq::empty(),
        },
        Err(e) => DeployRow {
            model_name,
            model_key: Seq::empty(),
            algorithm: Seq::empty(),
            strategy,
            success: false,
            error_msg: e@,
        },
    }
}

/// The key that the arguments give; the model name where they give none.
pub open spec fn given_key(args: Seq<Seq<char>>) -> Seq<char> {
    if args.len() >= 3 {
        args[2]
    } else {
        args[0]
    }
}

/// What deploying by the arguments does: the registry deploys, and the row tells
/// what came of it.
pub open spec fn deploy_by<M>(
    s: RegistryView<M>,
    args: Seq<Seq<char>>,
    now: u64,
    row: DeployRow,
    next: RegistryView<M>,
) -> bool {
    exists|actual: Result<Seq<char>, Seq<char>>, came: Result<Deployment, String>| #[trigger]
        registry::picks(s, args[0], args[1], given_key(args), actual) && #[trigger] registry::deploys(
            s,
            args[0],
            args[1],
            now,
            actual,
            came,
            next,
        ) && row == deploy_row(s, args[0], args[1], came)
}

/// The `ml_deploy` function.
pub struct DeployFn;

impl DeployFn {
    /// Deploys by the arguments: the model name, the strategy and, where given,
    /// the key. A deployment that fails is a row too.
    pub fn bind<M>(args: &Vec<String>, registry: &mut ModelRegistry<M>, now: u64) -> (r: Result<DBindData, String>)
        requires
            old(registry).well_formed(),
        ensures
            final(registry).well_formed(),
            args@.len() < 2 ==> (r matches Err(e) && e@ == "ml_deploy requires: model_name, strategy [, model_key]"@
                && final(registry)@ == old(registry)@),
            args@.len() >= 2 ==> (r matches Ok(row) && deploy_by(
                old(registry)@,
                text::texts(args@),
                now,
                row@,
                final(registry)@,
            )),
    {
        if args.len() < 2 {
            return Err("ml_deploy requires: model_name, strategy [, model_key]".to_owned());
        }
        let ghost given = text::texts(args@);
        let ghost before = registry@;
        let model_name: String = args[0].clone();
        let strategy: String = args[1].clone();
        let model_key: String = if args.len() >= 3 {
            args[2].clone()
        } else {
            args[0].clone()
        };
        let came: Result<Deployment, String> = registry.deploy(
            model_name.as_str(),
            strategy.as_str(),
            model_key.as_str(),
            now,
        );
        let ghost shown = came;
        let ghost after = registry@;
        let ghost actual = choose|actual: Result<Seq<char>, Seq<char>>| #[trigger]
            registry::picks(before, given[0], given[1], given_key(given), actual) && registry::deploys(
                before,
                given[0],
                given[1],
                now,
                actual,
                shown,
                after,
            );
        let row: DBindData = match came {
            Ok(deployment) => {
                let algorithm: String = match registry.get(deployment.model_key.as_str(), now) {
                    Some(entry) => entry.metadata.algorithm.name(),
                    None => String::new(),
                };
                proof {
                    let d = shown->Ok_0;
                    assert(after.models == before.models);
                    assert(registry@ == registry::touched(after, d.model_key@, now));
                    assert(registry@.last_used =~= after.last_used);
                    assert(registry@ =~= after);
                }
                DBindData {
                    model_name,
                    model_key: deployment.model_key,
                    algorithm,
                    strategy,
                    success: true,
                    error_msg: String::new(),
                }
            },
            Err(e) => DBindData {
                model_name,
                model_key: String::new(),
                algorithm: String::new(),
                strategy,
                success: false,
                error_msg: e,
            },
        };
        proof {
            assert(registry::deploys(before, given[0], given[1], now, actual, shown, registry@));
            assert(row@ == deploy_row(before, given[0], given[1], shown));
        }
        Ok(row)
    }
}

} // verus!
