//! What each hexagon yields and which dice number it carries.
use crate::chance::{is_shuffle_of, shuffle};
use crate::games::hexagon::board::layout::hexagon_count;
use crate::games::hexagon::board::{
    optional_index_view, BoardView, Centroid, GameBoard, Hexagon, HexagonView,
};
use crate::games::hexagon::resources::Resource;
use crate::search::{
    count_matching, first_match, is_first_match, is_value, lemma_count_is_multiset_count,
    lemma_count_matching_bounds, lemma_first_match_facts, lemma_first_match_is,
    lemma_first_match_none, lemma_single_match,
};
use vstd::prelude::*;

verus! {

/// The number that stands for "no dice number". It goes to the desert.
pub const NO_NUMBER: u8 = 1;

/// The share of block among `n` hexagons: 3 of 18, to the nearest whole number.
pub open spec fn block_quota(n: int) -> int {
    (n + 3) / 6
}

/// The share of rock among `n` hexagons: 3 of 18, rounded down.
pub open spec fn rock_quota(n: int) -> int {
    n / 6
}

/// The share of timber among `n` hexagons: 4 of 18, to the nearest whole number.
pub open spec fn timber_quota(n: int) -> int {
    (4 * n + 9) / 18
}

/// The share of cereal among `n` hexagons: 4 of 18, rounded down.
pub open spec fn cereal_quota(n: int) -> int {
    (2 * n) / 9
}

/// What stands at place `i` of the resource pool for `n` hexagons before it is shuffled:
/// block, rock, timber and cereal by their shares, fiber for what is left, and the
/// desert at the last place.
pub open spec fn resource_slot(n: int, i: int) -> Resource {
    if i == n - 1 {
        Resource::Desert
    } else if i < block_quota(n) {
        Resource::Block
    } else if i < block_quota(n) + rock_quota(n) {
        Resource::Rock
    } else if i < block_quota(n) + rock_quota(n) + timber_quota(n) {
        Resource::Timber
    } else if i < block_quota(n) + rock_quota(n) + timber_quota(n) + cereal_quota(n) {
        Resource::Cereal
    } else {
        Resource::Fiber
    }
}

/// The resource pool for `n` hexagons before it is shuffled.
pub open spec fn resource_pool(n: int) -> Seq<Resource> {
    Seq::new(n as nat, |i: int| resource_slot(n, i))
}

/// The share of the numbers 2 and 12 among `n` hexagons: 1 of 18 each, to the nearest
/// whole number.
pub open spec fn rare_quota(n: int) -> int {
    (n + 9) / 18
}

/// The share of each of the numbers 3, 4, 5, 6, 8, 9, 10 and 11 among `n` hexagons: 2 of
/// 18, to the nearest whole number.
pub open spec fn common_quota(n: int) -> int {
    (2 * n + 9) / 18
}

/// What stands at place `i` of the number pool for `n` hexagons before it is shuffled:
/// the numbers from 2 to 11 without 7 by their shares, 12 for what is left, and
/// `NO_NUMBER` at the last place.
pub open spec fn number_slot(n: int, i: int) -> u8 {
    let rare = rare_quota(n);
    let common = common_quota(n);
    if i == n - 1 {
        NO_NUMBER
    } else if i < rare {
        2
    } else if i < rare + common {
        3
    } else if i < rare + 2 * common {
        4
    } else if i < rare + 3 * common {
        5
    } else if i < rare + 4 * common {
        6
    } else if i < rare + 5 * common {
        8
    } else if i < rare + 6 * common {
        9
    } else if i < rare + 7 * common {
        10
    } else if i < rare + 8 * common {
        11
    } else {
        12
    }
}

/// The number pool for `n` hexagons before it is shuffled.
pub open spec fn number_pool(n: int) -> Seq<u8> {
    Seq::new(n as nat, |i: int| number_slot(n, i))
}

/// The numbers after the desert's place and the place of `NO_NUMBER` have been made one:
/// the two numbers at those places change places. Where there is no desert or no
/// `NO_NUMBER`, nothing changes.
pub open spec fn aligned(resources: Seq<Resource>, numbers: Seq<u8>) -> Seq<u8> {
    match (
        first_match(resources, is_value(Resource::Desert)),
        first_match(numbers, is_value(NO_NUMBER)),
    ) {
        (Some(d), Some(s)) => if d < numbers.len() {
            numbers.update(s, numbers[d]).update(d, numbers[s])
        } else {
            numbers
        },
        _ => numbers,
    }
}

/// The place of the desert among the resources, where there is one.
pub open spec fn desert_place(resources: Seq<Resource>) -> Option<int> {
    first_match(resources, is_value(Resource::Desert))
}

/// The board after the pools have been laid on its centroids: each hexagon gets the
/// resource at its place and the number at its place after alignment, each centroid gets
/// the same number, and the scorpion goes to the desert.
pub open spec fn placed(board: BoardView, resources: Seq<Resource>, numbers: Seq<u8>) -> BoardView {
    BoardView {
        centroids: Seq::new(
            board.centroids.len(),
            |i: int| Centroid { loc: board.centroids[i].loc, number: aligned(resources, numbers)[i] },
        ),
        hexagons: Seq::new(
            board.centroids.len(),
            |i: int|
                HexagonView {
                    vertices: Seq::empty(),
                    number: aligned(resources, numbers)[i],
                    resource: resources[i],
                },
        ),
        scorpion_index: desert_place(resources),
        ..board
    }
}

/// The product of a number and the next leaves 2 when divided by 6 if the number leaves 1
/// when divided by 3, and leaves nothing otherwise.
proof fn lemma_product_with_next(k: int)
    requires
        k >= 0,
    ensures
        k % 3 == 1 ==> (k * (k + 1)) % 6 == 2,
        k % 3 != 1 ==> (k * (k + 1)) % 6 == 0,
    decreases k,
{
    if k == 0 {
        assert(k * (k + 1) == 0) by (nonlinear_arith)
            requires
                k == 0,
        ;
    } else {
        lemma_product_with_next(k - 1);
        assert(k * (k + 1) == (k - 1) * k + 2 * k) by (nonlinear_arith);
    }
}

/// On every board of odd width the shares fill the resource pool exactly: block, rock,
/// timber and cereal by their shares leave for fiber as many places as cereal has, which
/// is fiber's own share of 4 in 18, rounded down.
pub proof fn law_shares_fill_the_pool(k: int)
    requires
        k >= 0,
    ensures
        block_quota(hexagon_count(k)) + rock_quota(hexagon_count(k)) + timber_quota(
            hexagon_count(k),
        ) + cereal_quota(hexagon_count(k)) + cereal_quota(hexagon_count(k)) == hexagon_count(k)
            - 1,
{
    let n = hexagon_count(k);
    let product = k * (k + 1);
    lemma_product_with_next(k);
    assert(n == 1 + 3 * product) by (nonlinear_arith)
        requires
            n == 1 + 3 * k * (k + 1),
            product == k * (k + 1),
    ;
    assert(product >= 0) by (nonlinear_arith)
        requires
            k >= 0,
            product == k * (k + 1),
    ;
    let s = product / 6;
    if product % 6 == 0 {
        assert(n == 18 * s + 1);
    } else {
        assert(n == 18 * s + 7);
    }
}

/// The pools hold exactly one desert and exactly one `NO_NUMBER`.
pub proof fn lemma_pools_hold_one(n: int)
    requires
        n >= 1,
    ensures
        count_matching(resource_pool(n), is_value(Resource::Desert)) == 1,
        count_matching(number_pool(n), is_value(NO_NUMBER)) == 1,
{
    let resources = resource_pool(n);
    let numbers = number_pool(n);
    let front_r = resources.drop_last();
    let front_n = numbers.drop_last();
    assert forall|i: int| 0 <= i < front_r.len() implies !is_value(Resource::Desert)(
        #[trigger] front_r[i],
    ) by {
        assert(front_r[i] == resource_slot(n, i));
    }
    assert forall|i: int| 0 <= i < front_n.len() implies !is_value(NO_NUMBER)(
        #[trigger] front_n[i],
    ) by {
        assert(front_n[i] == number_slot(n, i));
    }
    lemma_count_matching_bounds(front_r, is_value(Resource::Desert));
    lemma_count_matching_bounds(front_n, is_value(NO_NUMBER));
    assert(resources.last() == Resource::Desert);
    assert(numbers.last() == NO_NUMBER);
}

/// On a board with at least one hexagon, whatever order the shuffles gave, exactly one
/// hexagon has the desert, it is exactly the one without a dice number, and the scorpion
/// starts on it.
pub proof fn law_one_desert(board: BoardView, resources: Seq<Resource>, numbers: Seq<u8>)
    requires
        board.centroids.len() >= 1,
        is_shuffle_of(resources, resource_pool(board.centroids.len() as int)),
        is_shuffle_of(numbers, number_pool(board.centroids.len() as int)),
    ensures
        placed(board, resources, numbers).has_one_desert(),
{
    let n = board.centroids.len() as int;
    let is_desert = is_value(Resource::Desert);
    let is_blank = is_value(NO_NUMBER);
    lemma_pools_hold_one(n);
    lemma_count_is_multiset_count(resource_pool(n), Resource::Desert);
    lemma_count_is_multiset_count(resources, Resource::Desert);
    lemma_count_is_multiset_count(number_pool(n), NO_NUMBER);
    lemma_count_is_multiset_count(numbers, NO_NUMBER);
    vstd::seq_lib::to_multiset_len(resources);
    vstd::seq_lib::to_multiset_len(resource_pool(n));
    vstd::seq_lib::to_multiset_len(numbers);
    vstd::seq_lib::to_multiset_len(number_pool(n));
    lemma_count_matching_bounds(resources, is_desert);
    lemma_count_matching_bounds(numbers, is_blank);
    lemma_first_match_facts(resources, is_desert);
    lemma_first_match_facts(numbers, is_blank);
    let d = first_match(resources, is_desert)->0;
    let s = first_match(numbers, is_blank)->0;
    let after = placed(board, resources, numbers);
    let lined = aligned(resources, numbers);
    assert(after.scorpion_index == Some(d));
    assert forall|i: int| 0 <= i < after.hexagons.len() implies {
        let hexagon = #[trigger] after.hexagons[i];
        &&& hexagon.resource == Resource::Desert <==> i == d
        &&& hexagon.number == NO_NUMBER <==> i == d
    } by {
        if resources[i] == Resource::Desert {
            lemma_single_match(resources, is_desert, i, d);
        }
        if numbers[i] == NO_NUMBER {
            lemma_single_match(numbers, is_blank, i, s);
        }
        if numbers[d] == NO_NUMBER {
            lemma_single_match(numbers, is_blank, d, s);
        }
        assert(lined[i] == if i == d {
            numbers[s]
        } else if i == s {
            numbers[d]
        } else {
            numbers[i]
        });
    }
}

/// The resource pool for `n` hexagons, not yet shuffled.
pub fn resource_pool_for(n: usize) -> (pool: Vec<Resource>)
    ensures
        pool@ == resource_pool(n as int),
{
    let wide: u128 = n as u128;
    let block: u128 = (wide + 3) / 6;
    let rock: u128 = wide / 6;
    let timber: u128 = (4 * wide + 9) / 18;
    let cereal: u128 = (2 * wide) / 9;
    let mut pool: Vec<Resource> = Vec::new();
    let mut i: usize = 0;
    while i < n
        invariant
            i <= n,
            wide == n,
            block == block_quota(n as int),
            rock == rock_quota(n as int),
            timber == timber_quota(n as int),
            cereal == cereal_quota(n as int),
            pool@.len() == i,
            forall|j: int| 0 <= j < i ==> pool@[j] == resource_slot(n as int, j),
        decreases n - i,
    {
        let at: u128 = i as u128;
        let kind = if i == n - 1 {
            Resource::Desert
        } else if at < block {
            Resource::Block
        } else if at < block + rock {
            Resource::Rock
        } else if at < block + rock + timber {
            Resource::Timber
        } else if at < block + rock + timber + cereal {
            Resource::Cereal
        } else {
            Resource::Fiber
        };
        pool.push(kind);
        i += 1;
    }
    proof {
        assert(pool@ =~= resource_pool(n as int));
    }
    pool
}

/// The number pool for `n` hexagons, not yet shuffled.
pub fn number_pool_for(n: usize) -> (pool: Vec<u8>)
    ensures
        pool@ == number_pool(n as int),
{
    let wide: u128 = n as u128;
    let rare: u128 = (wide + 9) / 18;
    let common: u128 = (2 * wide + 9) / 18;
    let mut pool: Vec<u8> = Vec::new();
    let mut i: usize = 0;
    while i < n
        invariant
            i <= n,
            wide == n,
            rare == rare_quota(n as int),
            common == common_quota(n as int),
            pool@.len() == i,
            forall|j: int| 0 <= j < i ==> pool@[j] == number_slot(n as int, j),
        decreases n - i,
    {
        let at: u128 = i as u128;
        let number: u8 = if i == n - 1 {
            NO_NUMBER
        } else if at < rare {
            2
        } else if at < rare + common {
            3
        } else if at < rare + 2 * common {
            4
        } else if at < rare + 3 * common {
            5
        } else if at < rare + 4 * common {
            6
        } else if at < rare + 5 * common {
            8
        } else if at < rare + 6 * common {
            9
        } else if at < rare + 7 * common {
            10
        } else if at < rare + 8 * common {
            11
        } else {
            12
        };
        pool.push(number);
        i += 1;
    }
    proof {
        assert(pool@ =~= number_pool(n as int));
    }
    pool
}

/// The place of the first desert among the resources.
pub fn find_desert(resources: &Vec<Resource>) -> (place: Option<usize>)
    ensures
        optional_index_view(place) == desert_place(resources@),
        place matches Some(d) ==> d < resources.len(),
{
    let ghost wanted = is_value(Resource::Desert);
    let mut i: usize = 0;
    while i < resources.len()
        invariant
            i <= resources.len(),
            wanted == is_value(Resource::Desert),
            forall|j: int| 0 <= j < i ==> !wanted(#[trigger] resources@[j]),
        decreases resources.len() - i,
    {
        if let Resource::Desert = resources[i] {
            proof {
                assert(is_first_match(resources@, wanted, i as int));
                lemma_first_match_is(resources@, wanted, i as int);
            }
            return Some(i);
        }
        i += 1;
    }
    proof {
        lemma_first_match_none(resources@, wanted);
    }
    None
}

/// The place of the first `NO_NUMBER` among the numbers.
pub fn find_no_number(numbers: &Vec<u8>) -> (place: Option<usize>)
    ensures
        match place {
            Some(s) => first_match(numbers@, is_value(NO_NUMBER)) == Some(s as int) && s
                < numbers.len(),
            None => first_match(numbers@, is_value(NO_NUMBER)) is None,
        },
{
    let ghost wanted = is_value(NO_NUMBER);
    let mut i: usize = 0;
    while i < numbers.len()
        invariant
            i <= numbers.len(),
            wanted == is_value(NO_NUMBER),
            forall|j: int| 0 <= j < i ==> !wanted(#[trigger] numbers@[j]),
        decreases numbers.len() - i,
    {
        if numbers[i] == NO_NUMBER {
            proof {
                assert(is_first_match(numbers@, wanted, i as int));
                lemma_first_match_is(numbers@, wanted, i as int);
            }
            return Some(i);
        }
        i += 1;
    }
    proof {
        lemma_first_match_none(numbers@, wanted);
    }
    None
}

impl GameBoard {
    /// Lays shuffled pools on the board: one resource and one number for each centroid,
    /// after the number at the desert's place and `NO_NUMBER` have changed places.
    pub fn place_pools(&mut self, resources: Vec<Resource>, numbers: Vec<u8>)
        requires
            resources.len() == old(self).centroids.len(),
            numbers.len() == old(self).centroids.len(),
        ensures
            final(self)@ == placed(old(self)@, resources@, numbers@),
    {
        let mut numbers = numbers;
        let ghost given = numbers@;
        let desert = find_desert(&resources);
        let blank = find_no_number(&numbers);
        match (desert, blank) {
            (Some(d), Some(s)) => {
                let at_desert = numbers[d];
                let at_blank = numbers[s];
                numbers.set(s, at_desert);
                numbers.set(d, at_blank);
            },
            _ => {},
        }
        proof {
            assert(numbers@ =~= aligned(resources@, given));
        }
        let n = self.centroids.len();
        let mut hexagons: Vec<Hexagon> = Vec::new();
        let mut centroids: Vec<Centroid> = Vec::new();
        let mut i: usize = 0;
        while i < n
            invariant
                i <= n,
                n == self.centroids.len(),
                n == resources.len(),
                n == numbers.len(),
                hexagons.len() == i,
                centroids.len() == i,
                forall|j: int|
                    0 <= j < i ==> (#[trigger] hexagons@[j])@ == (HexagonView {
                        vertices: Seq::empty(),
                        number: numbers@[j],
                        resource: resources@[j],
                    }),
                forall|j: int|
                    0 <= j < i ==> #[trigger] centroids@[j] == (Centroid {
                        loc: self.centroids@[j].loc,
                        number: numbers@[j],
                    }),
            decreases n - i,
        {
            hexagons.push(
                Hexagon { vertices: Vec::new(), number: numbers[i], resource: resources[i] },
            );
            centroids.push(Centroid { loc: self.centroids[i].loc, number: numbers[i] });
            i += 1;
        }
        self.hexagons = hexagons;
        self.centroids = centroids;
        self.scorpion_index = desert;
        proof {
            let after = placed(old(self)@, resources@, given);
            assert(self@.centroids =~= after.centroids);
            assert(self@.hexagons =~= after.hexagons);
        }
    }

    /// Gives every hexagon a resource and a dice number. Both pools are shuffled, so the
    /// outcome is one of many; whichever it is, it is what `place_pools` makes of some
    /// order of the resource pool and some order of the number pool.
    pub fn assign_resources_and_rolls(&mut self)
        ensures
            exists|resources: Seq<Resource>, numbers: Seq<u8>|
                {
                    &&& is_shuffle_of(resources, resource_pool(old(self).centroids.len() as int))
                    &&& is_shuffle_of(numbers, number_pool(old(self).centroids.len() as int))
                    &&& final(self)@ == placed(old(self)@, resources, numbers)
                },
    {
        let n = self.centroids.len();
        let mut resources = resource_pool_for(n);
        let mut numbers = number_pool_for(n);
        let mut generator = rand::thread_rng();
        shuffle(&mut resources, &mut generator);
        shuffle(&mut numbers, &mut generator);
        proof {
            vstd::seq_lib::to_multiset_len(resources@);
            vstd::seq_lib::to_multiset_len(resource_pool(n as int));
            vstd::seq_lib::to_multiset_len(numbers@);
            vstd::seq_lib::to_multiset_len(number_pool(n as int));
        }
        let ghost shuffled_resources = resources@;
        let ghost shuffled_numbers = numbers@;
        self.place_pools(resources, numbers);
        proof {
            assert(is_shuffle_of(shuffled_resources, resource_pool(n as int)));
            assert(is_shuffle_of(shuffled_numbers, number_pool(n as int)));
            assert(self@ == placed(old(self)@, shuffled_resources, shuffled_numbers));
        }
    }
}

} // verus!
