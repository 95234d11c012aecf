//! Whether system audio tests can run on a machine.
use crate::platform::permissions::ScreenCapturePermission;
use vstd::prelude::*;
use vstd::string::*;

verus! {

/// Result of checking if system audio tests can run.
#[derive(Debug, Clone, Copy)]
pub struct SystemAudioTestSupport {
    /// Whether tests can run on this machine.
    pub can_run: bool,
    /// Human-readable reason for the decision.
    pub reason: &'static str,
}

impl SystemAudioTestSupport {
    /// Returns true if tests should be skipped.
    pub fn should_skip(&self) -> (r: bool)
        ensures
            r == !self.can_run,
    {
        !self.can_run
    }
}

/// The number of environment variables that CI systems are known by.
pub const CI_ENV_VAR_COUNT: usize = 5;

/// Names an environment variable that a CI system sets.
pub fn ci_env_var(i: usize) -> (r: &'static str)
    requires
        i < CI_ENV_VAR_COUNT,
    ensures
        i == 0 ==> r@ == "CI"@,
        i == 1 ==> r@ == "GITHUB_ACTIONS"@,
        i == 2 ==> r@ == "JENKINS_URL"@,
        i == 3 ==> r@ == "GITLAB_CI"@,
        i == 4 ==> r@ == "CIRCLECI"@,
{
    if i == 0 {
        "CI"
    } else if i == 1 {
        "GITHUB_ACTIONS"
    } else if i == 2 {
        "JENKINS_URL"
    } else if i == 3 {
        "GITLAB_CI"
    } else {
        "CIRCLECI"
    }
}

/// Whether any of some answers is yes.
pub open spec fn any_set(answers: Seq<bool>) -> bool {
    exists|i: int| 0 <= i < answers.len() && #[trigger] answers[i]
}

/// The decision and its reason: the build is looked at first, then the environment, then
/// the permission.
pub open spec fn support_of(
    sck_native: bool,
    in_ci: bool,
    permission: ScreenCapturePermission,
) -> (bool, Seq<char>) {
    if !sck_native {
        (false, "sck-native feature not enabled or not macOS"@)
    } else if in_ci {
        (false, "running in CI environment (no display/permissions)"@)
    } else {
        match permission {
            ScreenCapturePermission::Granted => (true, "all checks passed"@),
            ScreenCapturePermission::Denied => (
                false,
                "Screen Recording permission not granted (check System Settings)"@,
            ),
            ScreenCapturePermission::Unknown => (false, "could not determine permission status"@),
        }
    }
}

/// Checks if system audio tests can run on a machine.
///
/// `sck_native` tells whether it runs macOS with the native backend built in, `ci_vars`
/// which of the variables that CI systems set are set, `permission` whether the screen may
/// be recorded.
pub fn can_run_system_audio_tests(
    sck_native: bool,
    ci_vars: &Vec<bool>,
    permission: ScreenCapturePermission,
) -> (r: SystemAudioTestSupport)
    ensures
        (r.can_run, r.reason@) == support_of(sck_native, any_set(ci_vars@), permission),
{
    if !sck_native {
        return SystemAudioTestSupport {
            can_run: false,
            reason: "sck-native feature not enabled or not macOS",
        };
    }
    let mut i: usize = 0;
    while i < ci_vars.len()
        invariant
            i <= ci_vars.len(),
            sck_native,
            forall|j: int| 0 <= j < i ==> !#[trigger] ci_vars@[j],
        decreases ci_vars.len() - i,
    {
        if ci_vars[i] {
            assert(any_set(ci_vars@));
            return SystemAudioTestSupport {
                can_run: false,
                reason: "running in CI environment (no display/permissions)",
            };
        }
        i = i + 1;
    }
    match permission {
        ScreenCapturePermission::Granted => SystemAudioTestSupport {
            can_run: true,
            reason: "all checks passed",
        },
        ScreenCapturePermission::Denied => SystemAudioTestSupport {
            can_run: false,
            reason: "Screen Recording permission not granted (check System Settings)",
        },
        ScreenCapturePermission::Unknown => SystemAudioTestSupport {
            can_run: false,
            reason: "could not determine permission status",
        },
    }
}

/// System audio can be tested exactly with the native backend, where none of the variables of
/// a CI system is set and the permission is granted.
pub proof fn lemma_tests_need_everything(
    sck_native: bool,
    ci_vars: Seq<bool>,
    permission: ScreenCapturePermission,
)
    ensures
        support_of(sck_native, any_set(ci_vars), permission).0 <==> sck_native && (forall|i: int|
            0 <= i < ci_vars.len() ==> !#[trigger] ci_vars[i]) && permission is Granted,
{
}

} // verus!
